use ongeki_data::Character;
use ongeki_data::CharactersDefinition;
use ongeki_data::Chapter;
use ongeki_data::Composer;
use ongeki_data::DictionaryEntryKind;
use ongeki_data::GeneralDefinition;
use ongeki_data::Section;
use ongeki_data::Song;
use ongeki_data::SongsDefinition;
use ongeki_data::Unit;
use ongeki_data::VoiceActor;
use ongeki_data::generate_entries;

fn strings(parts: &[&str]) -> Vec<String> {
    parts.iter().map(|p| p.to_string()).collect()
}

fn voice_actor(names: &[&str], readings: &[&str], inverted: Option<bool>) -> VoiceActor {
    VoiceActor { name: strings(names), reading: strings(readings), inverted }
}

fn character(
    names: &[&str],
    readings: &[&str],
    inverted: Option<bool>,
    va: VoiceActor,
) -> Character {
    Character { name: strings(names), reading: strings(readings), inverted, voice_actor: va }
}

fn empty_generals() -> GeneralDefinition {
    GeneralDefinition { updated_at: "2019-01-01".to_string(), sections: vec![] }
}

fn empty_songs() -> SongsDefinition {
    SongsDefinition { updated_at: "2019-01-01".to_string(), songs: vec![] }
}

fn characters_of(characters: Vec<Character>, units: Vec<Unit>) -> CharactersDefinition {
    CharactersDefinition { updated_at: "2019-01-01".to_string(), characters, units }
}

#[test]
fn full_name_synthesis() {
    let c = character(
        &["山田", "太郎"],
        &["やまだ", "たろう"],
        Some(false),
        voice_actor(&["佐藤"], &["さとう"], None),
    );
    let entries = generate_entries(&empty_generals(), &characters_of(vec![c], vec![]), &empty_songs());
    let chars: Vec<_> = entries
        .iter()
        .filter(|e| e.kind == DictionaryEntryKind::Character)
        .map(|e| (e.entry.clone(), e.reading.clone()))
        .collect();
    assert_eq!(
        chars,
        vec![
            ("太郎".to_string(), "たろう".to_string()),
            ("山田".to_string(), "やまだ".to_string()),
            ("山田太郎".to_string(), "やまだたろう".to_string()),
        ]
    );
}

#[test]
fn full_name_inversion() {
    let c = character(
        &["山田", "太郎"],
        &["やまだ", "たろう"],
        Some(true),
        voice_actor(&["佐藤"], &["さとう"], None),
    );
    let entries = generate_entries(&empty_generals(), &characters_of(vec![c], vec![]), &empty_songs());
    let full: Vec<_> = entries
        .iter()
        .filter(|e| e.kind == DictionaryEntryKind::Character && e.entry.chars().count() > 2)
        .map(|e| (e.entry.clone(), e.reading.clone()))
        .collect();
    assert_eq!(full, vec![("太郎山田".to_string(), "たろうやまだ".to_string())]);
}

#[test]
fn single_component_skip() {
    let c = character(
        &["あかり"],
        &["あかり"],
        None,
        voice_actor(&["赤崎", "千夏"], &["あかさき", "ちなつ"], None),
    );
    let entries = generate_entries(&empty_generals(), &characters_of(vec![c], vec![]), &empty_songs());
    let chars: Vec<_> = entries
        .iter()
        .filter(|e| e.kind == DictionaryEntryKind::Character)
        .map(|e| e.entry.clone())
        .collect();
    assert_eq!(chars, vec!["あかり".to_string()]);
    let actors: Vec<_> = entries
        .iter()
        .filter(|e| e.kind == DictionaryEntryKind::VoiceActor)
        .map(|e| (e.entry.clone(), e.reading.clone()))
        .collect();
    assert_eq!(actors, vec![("赤崎千夏".to_string(), "あかさきちなつ".to_string())]);
    assert_eq!(entries.len(), 2);
}

#[test]
fn voice_actor_inversion_is_independent() {
    let c = character(
        &["山田", "太郎"],
        &["やまだ", "たろう"],
        Some(false),
        voice_actor(&["Smith", "John"], &["すみす", "じょん"], Some(true)),
    );
    let entries = generate_entries(&empty_generals(), &characters_of(vec![c], vec![]), &empty_songs());
    let actors: Vec<_> = entries
        .iter()
        .filter(|e| e.kind == DictionaryEntryKind::VoiceActor)
        .map(|e| (e.entry.clone(), e.reading.clone()))
        .collect();
    assert_eq!(actors, vec![("JohnSmith".to_string(), "じょんすみす".to_string())]);
}

#[test]
fn deduplication_of_shared_components() {
    let va1 = voice_actor(&["A"], &["えい"], None);
    let va2 = voice_actor(&["A"], &["えい"], None);
    let c1 = character(&["山田", "太郎"], &["やまだ", "たろう"], None, va1);
    let c2 = character(&["山田", "花子"], &["やまだ", "はなこ"], None, va2);
    let entries =
        generate_entries(&empty_generals(), &characters_of(vec![c1, c2], vec![]), &empty_songs());
    let yamada = entries
        .iter()
        .filter(|e| e.kind == DictionaryEntryKind::Character && e.entry == "山田")
        .count();
    assert_eq!(yamada, 1);
    let actors = entries.iter().filter(|e| e.kind == DictionaryEntryKind::VoiceActor).count();
    assert_eq!(actors, 1);
    for i in 0..entries.len() {
        for j in 0..entries.len() {
            if i != j {
                let a = &entries[i];
                let b = &entries[j];
                assert!(a.kind != b.kind || a.entry != b.entry || a.reading != b.reading);
            }
        }
    }
}

#[test]
fn generation_is_deterministic() {
    let generals = GeneralDefinition {
        updated_at: "x".to_string(),
        sections: vec![Section {
            number: 1,
            chapters: vec![Chapter {
                number: 2,
                title: "出会い".to_string(),
                reading: "であい".to_string(),
            }],
        }],
    };
    let c = character(
        &["星咲", "あかり"],
        &["ほしざき", "あかり"],
        None,
        voice_actor(&["赤崎", "千夏"], &["あかさき", "ちなつ"], None),
    );
    let characters = characters_of(
        vec![c],
        vec![Unit { name: "フォトン".to_string(), reading: "ふぉとん".to_string() }],
    );
    let songs = SongsDefinition {
        updated_at: "x".to_string(),
        songs: vec![Song {
            title: "タイトル".to_string(),
            reading: "たいとる".to_string(),
            composer: Composer { name: "作曲者".to_string(), reading: "さっきょくしゃ".to_string() },
        }],
    };
    let first = generate_entries(&generals, &characters, &songs);
    let second = generate_entries(&generals, &characters, &songs);
    assert_eq!(first.len(), second.len());
    for (a, b) in first.iter().zip(second.iter()) {
        assert_eq!(a.kind, b.kind);
        assert_eq!(a.entry, b.entry);
        assert_eq!(a.reading, b.reading);
    }
}

#[test]
fn kind_order_and_chapter_numbers() {
    let generals = GeneralDefinition {
        updated_at: "x".to_string(),
        sections: vec![
            Section {
                number: 2,
                chapters: vec![Chapter {
                    number: 1,
                    title: "再会".to_string(),
                    reading: "さいかい".to_string(),
                }],
            },
            Section {
                number: 1,
                chapters: vec![
                    Chapter {
                        number: 2,
                        title: "続き".to_string(),
                        reading: "つづき".to_string(),
                    },
                    Chapter {
                        number: 1,
                        title: "出会い".to_string(),
                        reading: "であい".to_string(),
                    },
                ],
            },
        ],
    };
    let c = character(
        &["星咲"],
        &["ほしざき"],
        None,
        voice_actor(&["赤崎"], &["あかさき"], None),
    );
    let characters = characters_of(
        vec![c],
        vec![Unit { name: "ユニット名".to_string(), reading: "ゆにっとめい".to_string() }],
    );
    let songs = SongsDefinition {
        updated_at: "x".to_string(),
        songs: vec![Song {
            title: "曲".to_string(),
            reading: "きょく".to_string(),
            composer: Composer { name: "作曲".to_string(), reading: "さっきょく".to_string() },
        }],
    };
    let entries = generate_entries(&generals, &characters, &songs);
    let kinds: Vec<_> = entries.iter().map(|e| e.kind).collect();
    assert_eq!(
        kinds,
        vec![
            DictionaryEntryKind::Chapter(1, 1),
            DictionaryEntryKind::Chapter(1, 2),
            DictionaryEntryKind::Chapter(2, 1),
            DictionaryEntryKind::Character,
            DictionaryEntryKind::VoiceActor,
            DictionaryEntryKind::Unit,
            DictionaryEntryKind::Song,
            DictionaryEntryKind::Composer,
        ]
    );
    assert_eq!(entries[0].entry, "出会い");
    assert_eq!(entries[1].entry, "続き");
    assert_eq!(entries[2].entry, "再会");
}

#[test]
fn zero_component_character_yields_only_voice_actor() {
    let c = character(&[], &[], None, voice_actor(&["佐藤"], &["さとう"], None));
    let entries = generate_entries(&empty_generals(), &characters_of(vec![c], vec![]), &empty_songs());
    assert_eq!(entries.len(), 1);
    assert_eq!(entries[0].kind, DictionaryEntryKind::VoiceActor);
    assert_eq!(entries[0].entry, "佐藤");
}

#[test]
fn empty_inputs_yield_no_entries() {
    let entries =
        generate_entries(&empty_generals(), &characters_of(vec![], vec![]), &empty_songs());
    assert_eq!(entries.len(), 0);
}

#[test]
fn headwords_sorted_within_kind() {
    let characters = characters_of(
        vec![],
        vec![
            Unit { name: "b".to_string(), reading: "びー".to_string() },
            Unit { name: "a".to_string(), reading: "えー".to_string() },
            Unit { name: "a".to_string(), reading: "あ".to_string() },
        ],
    );
    let entries = generate_entries(&empty_generals(), &characters, &empty_songs());
    let units: Vec<_> = entries.iter().map(|e| (e.entry.clone(), e.reading.clone())).collect();
    assert_eq!(
        units,
        vec![
            ("a".to_string(), "あ".to_string()),
            ("a".to_string(), "えー".to_string()),
            ("b".to_string(), "びー".to_string()),
        ]
    );
}
