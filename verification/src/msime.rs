//! The MS-IME dialect: one tab-separated record per canonical entry, with
//! one constant part-of-speech label for all records.

use vstd::prelude::*;

use crate::dictionary::DictionaryEntry;
use crate::dictionary::EmitDictionary;
use crate::dictionary::EntryModel;
use crate::dictionary::entry_views;

verus! {

/// An MS-IME dictionary record: headword, reading and part of speech.
#[derive(Debug)]
pub struct MsimeDictionaryEntry {
    pub entry: String,
    pub reading: String,
    pub speech: String,
}

/// Model of an `MsimeDictionaryEntry`.
#[verifier::ext_equal]
pub ghost struct MsimeModel {
    pub entry: Seq<char>,
    pub reading: Seq<char>,
    pub speech: Seq<char>,
}

impl View for MsimeDictionaryEntry {
    type V = MsimeModel;

    open spec fn view(&self) -> MsimeModel {
        MsimeModel { entry: self.entry@, reading: self.reading@, speech: self.speech@ }
    }
}

/// The models of a sequence of MS-IME records.
pub open spec fn msime_views(s: Seq<MsimeDictionaryEntry>) -> Seq<MsimeModel> {
    Seq::new(s.len(), |i: int| s[i]@)
}

/// The MS-IME record of one canonical entry: the same headword and reading,
/// with the constant proper-noun label.
pub open spec fn msime_record(e: EntryModel) -> MsimeModel {
    MsimeModel { entry: e.entry, reading: e.reading, speech: "固有名詞"@ }
}

/// The MS-IME records of the canonical entries, one each, in order.
pub open spec fn msime_records(entries: Seq<EntryModel>) -> Seq<MsimeModel> {
    Seq::new(entries.len(), |i: int| msime_record(entries[i]))
}

/// The rendered line of an MS-IME record: reading, headword and part of
/// speech, tab-separated.
pub open spec fn msime_line(m: MsimeModel) -> Seq<char> {
    m.reading + "\t"@ + m.entry + "\t"@ + m.speech
}

impl EmitDictionary for MsimeDictionaryEntry {
    /// The emitted records are exactly the MS-IME records of the entries.
    open spec fn emit_model(entries: Seq<EntryModel>, out: Seq<MsimeDictionaryEntry>) -> bool {
        msime_views(out) == msime_records(entries)
    }

    fn emit(entries: &Vec<DictionaryEntry>) -> (result: Vec<MsimeDictionaryEntry>) {
        let ghost ms = entry_views(entries@);
        let mut result: Vec<MsimeDictionaryEntry> = Vec::new();
        let mut i: usize = 0;
        assert(msime_views(result@) =~= msime_records(ms.take(0)));
        while i < entries.len()
            invariant
                i <= entries@.len(),
                ms == entry_views(entries@),
                result@.len() == i,
                msime_views(result@) == msime_records(ms.take(i as int)),
            decreases entries@.len() - i,
        {
            let e = &entries[i];
            result.push(MsimeDictionaryEntry {
                entry: e.entry.clone(),
                reading: e.reading.clone(),
                speech: String::from_str("固有名詞"),
            });
            proof {
                assert(result@[i as int]@ =~= msime_record(ms[i as int]));
                assert forall|k: int| 0 <= k < i implies msime_views(result@)[k] == msime_records(
                    ms.take(i + 1),
                )[k] by {
                    assert(msime_views(result@)[k] == msime_records(ms.take(i as int))[k]);
                }
                assert(msime_views(result@) =~= msime_records(ms.take(i + 1)));
            }
            i = i + 1;
        }
        assert(ms.take(ms.len() as int) =~= ms);
        result
    }
}

impl MsimeDictionaryEntry {
    /// Renders the record as its dictionary line, without the line break.
    pub fn render(&self) -> (r: String)
        ensures
            r@ == msime_line(self@),
    {
        let mut r = self.reading.clone();
        r.append("\t");
        r.append(self.entry.as_str());
        r.append("\t");
        r.append(self.speech.as_str());
        assert(r@ =~= msime_line(self@));
        r
    }
}

} // verus!
