use ongeki_data::DictionaryEntry;
use ongeki_data::DictionaryEntryKind;
use ongeki_data::EmitDictionary;
use ongeki_data::SkkDictionaryEntry;

fn entry(kind: DictionaryEntryKind, word: &str, reading: &str) -> DictionaryEntry {
    DictionaryEntry { kind, entry: word.to_string(), reading: reading.to_string() }
}

#[test]
fn escape_slash_and_semicolon() {
    assert_eq!(SkkDictionaryEntry::escape("A/B;C"), "(concat \"A\\057B\\059C\")");
}

#[test]
fn escape_plain_text_verbatim() {
    assert_eq!(SkkDictionaryEntry::escape("山田太郎"), "山田太郎");
    assert_eq!(SkkDictionaryEntry::escape(""), "");
}

#[test]
fn escape_backslash_and_quote() {
    assert_eq!(SkkDictionaryEntry::escape("a\\b\"c"), "(concat \"a\\\\b\\\"c\")");
}

#[test]
fn grouping_by_reading() {
    let entries = vec![
        entry(DictionaryEntryKind::Character, "太郎", "たろう"),
        entry(DictionaryEntryKind::Song, "太朗", "たろう"),
    ];
    let records = SkkDictionaryEntry::emit(&entries);
    assert_eq!(records.len(), 1);
    assert_eq!(records[0].reading, "たろう");
    assert_eq!(records[0].entries.len(), 2);
    assert_eq!(records[0].entries[0].0, "太郎");
    assert_eq!(records[0].entries[0].1, DictionaryEntryKind::Character);
    assert_eq!(records[0].entries[1].0, "太朗");
    assert_eq!(records[0].entries[1].1, DictionaryEntryKind::Song);
}

#[test]
fn records_sorted_by_reading() {
    let entries = vec![
        entry(DictionaryEntryKind::Character, "山田", "やまだ"),
        entry(DictionaryEntryKind::Character, "太郎", "たろう"),
        entry(DictionaryEntryKind::Unit, "ユニット", "たろう"),
    ];
    let records = SkkDictionaryEntry::emit(&entries);
    assert_eq!(records.len(), 2);
    assert_eq!(records[0].reading, "たろう");
    assert_eq!(records[1].reading, "やまだ");
    assert_eq!(records[0].entries.len(), 2);
}

#[test]
fn render_line_with_two_candidates() {
    let entries = vec![
        entry(DictionaryEntryKind::Character, "太郎", "たろう"),
        entry(DictionaryEntryKind::Song, "太朗", "たろう"),
    ];
    let records = SkkDictionaryEntry::emit(&entries);
    assert_eq!(
        records[0].render(),
        "たろう /太郎;[オンゲキ] キャラクター/太朗;[オンゲキ] 楽曲/"
    );
}

#[test]
fn render_chapter_label_with_numbers() {
    let entries = vec![entry(DictionaryEntryKind::Chapter(2, 13), "出会い", "であい")];
    let records = SkkDictionaryEntry::emit(&entries);
    assert_eq!(records[0].render(), "であい /出会い;[オンゲキ] 第2章チャプター13/");
}

#[test]
fn render_escapes_reserved_headword() {
    let entries = vec![entry(DictionaryEntryKind::Song, "A/B", "えーびー")];
    let records = SkkDictionaryEntry::emit(&entries);
    assert_eq!(
        records[0].render(),
        "えーびー /(concat \"A\\057B\");[オンゲキ] 楽曲/"
    );
}

#[test]
fn render_category_labels() {
    let cases = vec![
        (DictionaryEntryKind::VoiceActor, "声優"),
        (DictionaryEntryKind::Unit, "ユニット"),
        (DictionaryEntryKind::Composer, "アーティスト"),
    ];
    for (kind, label) in cases {
        let entries = vec![entry(kind, "名", "よみ")];
        let records = SkkDictionaryEntry::emit(&entries);
        assert_eq!(records[0].render(), format!("よみ /名;[オンゲキ] {}/", label));
    }
}
