//! Input records: the characters, voice actors, units, songs and narrative
//! chapters that the dictionary entries are generated from, together with
//! the three top-level definition sets an external loader fills in.
//!
//! Each record type has a mathematical model (a ghost struct over `Seq`)
//! reached through its view, and the contracts of the generator speak only
//! of those models.

use vstd::prelude::*;

verus! {

/// A voice actor: name and reading split into components, with an optional
/// flag that the component order is reversed with respect to reading order.
pub struct VoiceActor {
    pub name: Vec<String>,
    pub reading: Vec<String>,
    pub inverted: Option<bool>,
}

/// Model of a `VoiceActor`; the absent flag defaults to `false`.
pub ghost struct VoiceActorModel {
    pub name: Seq<Seq<char>>,
    pub reading: Seq<Seq<char>>,
    pub inverted: bool,
}

impl VoiceActorModel {
    /// One reading per name component.
    pub open spec fn wf(self) -> bool {
        self.name.len() == self.reading.len()
    }
}

impl View for VoiceActor {
    type V = VoiceActorModel;

    open spec fn view(&self) -> VoiceActorModel {
        VoiceActorModel {
            name: self.name.deep_view(),
            reading: self.reading.deep_view(),
            inverted: self.inverted == Some(true),
        }
    }
}

/// A character: component-wise name and reading, the inversion flag, and
/// the character's own voice actor.
pub struct Character {
    pub name: Vec<String>,
    pub reading: Vec<String>,
    pub inverted: Option<bool>,
    pub voice_actor: VoiceActor,
}

/// Model of a `Character`.
pub ghost struct CharacterModel {
    pub name: Seq<Seq<char>>,
    pub reading: Seq<Seq<char>>,
    pub inverted: bool,
    pub voice_actor: VoiceActorModel,
}

impl CharacterModel {
    /// One reading per name component, and a well-formed voice actor.
    pub open spec fn wf(self) -> bool {
        self.name.len() == self.reading.len() && self.voice_actor.wf()
    }
}

impl View for Character {
    type V = CharacterModel;

    open spec fn view(&self) -> CharacterModel {
        CharacterModel {
            name: self.name.deep_view(),
            reading: self.reading.deep_view(),
            inverted: self.inverted == Some(true),
            voice_actor: self.voice_actor@,
        }
    }
}

/// A unit: a single name with a single reading.
pub struct Unit {
    pub name: String,
    pub reading: String,
}

/// Model of a `Unit`.
pub ghost struct UnitModel {
    pub name: Seq<char>,
    pub reading: Seq<char>,
}

impl View for Unit {
    type V = UnitModel;

    open spec fn view(&self) -> UnitModel {
        UnitModel { name: self.name@, reading: self.reading@ }
    }
}

/// A composer: a single name with a single reading.
pub struct Composer {
    pub name: String,
    pub reading: String,
}

/// Model of a `Composer`.
pub ghost struct ComposerModel {
    pub name: Seq<char>,
    pub reading: Seq<char>,
}

impl View for Composer {
    type V = ComposerModel;

    open spec fn view(&self) -> ComposerModel {
        ComposerModel { name: self.name@, reading: self.reading@ }
    }
}

/// A song: title and reading, with its composer.
pub struct Song {
    pub title: String,
    pub reading: String,
    pub composer: Composer,
}

/// Model of a `Song`.
pub ghost struct SongModel {
    pub title: Seq<char>,
    pub reading: Seq<char>,
    pub composer: ComposerModel,
}

impl View for Song {
    type V = SongModel;

    open spec fn view(&self) -> SongModel {
        SongModel {
            title: self.title@,
            reading: self.reading@,
            composer: self.composer@,
        }
    }
}

/// A narrative chapter: its number within a section, a title and a reading.
pub struct Chapter {
    pub number: i32,
    pub title: String,
    pub reading: String,
}

/// Model of a `Chapter`.
pub ghost struct ChapterModel {
    pub number: i32,
    pub title: Seq<char>,
    pub reading: Seq<char>,
}

impl View for Chapter {
    type V = ChapterModel;

    open spec fn view(&self) -> ChapterModel {
        ChapterModel {
            number: self.number,
            title: self.title@,
            reading: self.reading@,
        }
    }
}

/// A section: its number and its chapters in order.
pub struct Section {
    pub number: i32,
    pub chapters: Vec<Chapter>,
}

/// Model of a `Section`.
pub ghost struct SectionModel {
    pub number: i32,
    pub chapters: Seq<ChapterModel>,
}

impl View for Section {
    type V = SectionModel;

    open spec fn view(&self) -> SectionModel {
        SectionModel {
            number: self.number,
            chapters: Seq::new(self.chapters@.len(), |i: int| self.chapters@[i]@),
        }
    }
}

/// The character definition set: characters and units, with the timestamp
/// of the last update of the source data.
pub struct CharactersDefinition {
    pub updated_at: String,
    pub characters: Vec<Character>,
    pub units: Vec<Unit>,
}

/// Model of a `CharactersDefinition`.
pub ghost struct CharactersDefinitionModel {
    pub updated_at: Seq<char>,
    pub characters: Seq<CharacterModel>,
    pub units: Seq<UnitModel>,
}

impl CharactersDefinitionModel {
    /// Every character in the set is well-formed.
    pub open spec fn wf(self) -> bool {
        forall|i: int| 0 <= i < self.characters.len() ==> (#[trigger] self.characters[i]).wf()
    }
}

impl View for CharactersDefinition {
    type V = CharactersDefinitionModel;

    open spec fn view(&self) -> CharactersDefinitionModel {
        CharactersDefinitionModel {
            updated_at: self.updated_at@,
            characters: Seq::new(self.characters@.len(), |i: int| self.characters@[i]@),
            units: Seq::new(self.units@.len(), |i: int| self.units@[i]@),
        }
    }
}

/// The song definition set.
pub struct SongsDefinition {
    pub updated_at: String,
    pub songs: Vec<Song>,
}

/// Model of a `SongsDefinition`.
pub ghost struct SongsDefinitionModel {
    pub updated_at: Seq<char>,
    pub songs: Seq<SongModel>,
}

impl View for SongsDefinition {
    type V = SongsDefinitionModel;

    open spec fn view(&self) -> SongsDefinitionModel {
        SongsDefinitionModel {
            updated_at: self.updated_at@,
            songs: Seq::new(self.songs@.len(), |i: int| self.songs@[i]@),
        }
    }
}

/// The general definition set: the sections of the narrative.
pub struct GeneralDefinition {
    pub updated_at: String,
    pub sections: Vec<Section>,
}

/// Model of a `GeneralDefinition`.
pub ghost struct GeneralDefinitionModel {
    pub updated_at: Seq<char>,
    pub sections: Seq<SectionModel>,
}

impl View for GeneralDefinition {
    type V = GeneralDefinitionModel;

    open spec fn view(&self) -> GeneralDefinitionModel {
        GeneralDefinitionModel {
            updated_at: self.updated_at@,
            sections: Seq::new(self.sections@.len(), |i: int| self.sections@[i]@),
        }
    }
}

} // verus!
