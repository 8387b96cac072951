pub mod atok;
pub mod data;
pub mod dictionary;
pub mod msime;
pub mod numeral;
pub mod order;
pub mod skk;
pub mod transcode;

pub use atok::AtokDictionaryEntry;
pub use data::Character;
pub use data::CharactersDefinition;
pub use data::Chapter;
pub use data::Composer;
pub use data::GeneralDefinition;
pub use data::Section;
pub use data::Song;
pub use data::SongsDefinition;
pub use data::Unit;
pub use data::VoiceActor;
pub use dictionary::DictionaryEntry;
pub use dictionary::DictionaryEntryKind;
pub use dictionary::EmitDictionary;
pub use dictionary::generate_entries;
pub use msime::MsimeDictionaryEntry;
pub use skk::SkkDictionaryEntry;
pub use transcode::write_as_utf16;
