use ongeki_data::AtokDictionaryEntry;
use ongeki_data::DictionaryEntry;
use ongeki_data::DictionaryEntryKind;
use ongeki_data::EmitDictionary;
use ongeki_data::MsimeDictionaryEntry;

fn entry(kind: DictionaryEntryKind, word: &str, reading: &str) -> DictionaryEntry {
    DictionaryEntry { kind, entry: word.to_string(), reading: reading.to_string() }
}

#[test]
fn atok_part_of_speech_by_kind() {
    let entries = vec![
        entry(DictionaryEntryKind::Chapter(1, 2), "章", "しょう"),
        entry(DictionaryEntryKind::Character, "人", "ひと"),
        entry(DictionaryEntryKind::VoiceActor, "役者", "やくしゃ"),
        entry(DictionaryEntryKind::Unit, "組", "くみ"),
        entry(DictionaryEntryKind::Song, "曲", "きょく"),
        entry(DictionaryEntryKind::Composer, "作者", "さくしゃ"),
    ];
    let records = AtokDictionaryEntry::emit(&entries);
    let speeches: Vec<_> = records.iter().map(|r| r.speech.clone()).collect();
    assert_eq!(
        speeches,
        vec!["固有一般", "固有人他", "固有人他", "固有組織", "固有一般", "固有人他"]
    );
}

#[test]
fn atok_keeps_one_record_per_entry() {
    let entries = vec![
        entry(DictionaryEntryKind::Character, "太郎", "たろう"),
        entry(DictionaryEntryKind::Song, "太朗", "たろう"),
    ];
    let records = AtokDictionaryEntry::emit(&entries);
    assert_eq!(records.len(), 2);
    assert_eq!(records[0].entry, "太郎");
    assert_eq!(records[0].reading, "たろう");
    assert_eq!(records[1].entry, "太朗");
}

#[test]
fn atok_render_tab_separated() {
    let entries = vec![entry(DictionaryEntryKind::Unit, "フォトン", "ふぉとん")];
    let records = AtokDictionaryEntry::emit(&entries);
    assert_eq!(records[0].render(), "ふぉとん\tフォトン\t固有組織");
}

#[test]
fn msime_constant_part_of_speech() {
    let entries = vec![
        entry(DictionaryEntryKind::Character, "人", "ひと"),
        entry(DictionaryEntryKind::Song, "曲", "きょく"),
    ];
    let records = MsimeDictionaryEntry::emit(&entries);
    assert_eq!(records.len(), 2);
    for r in records.iter() {
        assert_eq!(r.speech, "固有名詞");
    }
}

#[test]
fn msime_render_tab_separated() {
    let entries = vec![entry(DictionaryEntryKind::Character, "星咲あかり", "ほしざきあかり")];
    let records = MsimeDictionaryEntry::emit(&entries);
    assert_eq!(records[0].render(), "ほしざきあかり\t星咲あかり\t固有名詞");
}
