//! The user-facing strings in each supported language.
use vstd::prelude::*;

verus! {

#[derive(Clone, Copy, PartialEq, Eq, Debug, Structural)]
pub enum Languages {
    English,
    Romanian,
}

pub const DEFAULT_LANGUAGE: Languages = Languages::English;

#[derive(Clone, Copy, PartialEq, Eq, Debug, Structural)]
pub enum LangKeys {
    GoBack,
    GoForward,
    DeletedFolder,
    EmptyFolder,
    NothingSelected,
    Extension,
    CreatedAt,
    AccessedAt,
    ModifiedAt,
}

/// The text shown for `key` in `lang`.
pub open spec fn text_for(lang: Languages, key: LangKeys) -> Seq<char> {
    match lang {
        Languages::English => match key {
            LangKeys::GoBack => "Go back"@,
            LangKeys::GoForward => "Go forward"@,
            LangKeys::DeletedFolder => "Folder has been deleted."@,
            LangKeys::EmptyFolder => "Folder has been deleted."@,
            LangKeys::NothingSelected => "No file is selected."@,
            LangKeys::Extension => "Extension: "@,
            LangKeys::CreatedAt => "Created at: "@,
            LangKeys::AccessedAt => "Accessed at: "@,
            LangKeys::ModifiedAt => "Modified at: "@,
        },
        Languages::Romanian => match key {
            LangKeys::GoBack => "Înapoi"@,
            LangKeys::GoForward => "Înainte"@,
            LangKeys::DeletedFolder => "Folderul a fost șters."@,
            LangKeys::EmptyFolder => "Folderul este gol."@,
            LangKeys::NothingSelected => "Niciun fișier selectat."@,
            LangKeys::Extension => "Extensie: "@,
            LangKeys::CreatedAt => "Creat la: "@,
            LangKeys::AccessedAt => "Accesat la: "@,
            LangKeys::ModifiedAt => "Modificat la: "@,
        },
    }
}

/// Looks up user-facing strings in one language.
pub struct LangString {
    lang: Languages,
}

impl LangString {
    /// The language strings are looked up in.
    pub closed spec fn language(&self) -> Languages {
        self.lang
    }

    pub fn new() -> (r: Self)
        ensures
            r.language() == DEFAULT_LANGUAGE,
    {
        LangString { lang: DEFAULT_LANGUAGE }
    }

    pub fn from(lang: Languages) -> (r: Self)
        ensures
            r.language() == lang,
    {
        LangString { lang }
    }

    pub fn get(&self, key: LangKeys) -> (r: String)
        ensures
            r@ == text_for(self.language(), key),
    {
        match self.lang {
            Languages::English => match key {
                LangKeys::GoBack => String::from_str("Go back"),
                LangKeys::GoForward => String::from_str("Go forward"),
                LangKeys::DeletedFolder => String::from_str("Folder has been deleted."),
                LangKeys::EmptyFolder => String::from_str("Folder has been deleted."),
                LangKeys::NothingSelected => String::from_str("No file is selected."),
                LangKeys::Extension => String::from_str("Extension: "),
                LangKeys::CreatedAt => String::from_str("Created at: "),
                LangKeys::AccessedAt => String::from_str("Accessed at: "),
                LangKeys::ModifiedAt => String::from_str("Modified at: "),
            },
            Languages::Romanian => match key {
                LangKeys::GoBack => String::from_str("Înapoi"),
                LangKeys::GoForward => String::from_str("Înainte"),
                LangKeys::DeletedFolder => String::from_str("Folderul a fost șters."),
                LangKeys::EmptyFolder => String::from_str("Folderul este gol."),
                LangKeys::NothingSelected => String::from_str("Niciun fișier selectat."),
                LangKeys::Extension => String::from_str("Extensie: "),
                LangKeys::CreatedAt => String::from_str("Creat la: "),
                LangKeys::AccessedAt => String::from_str("Accesat la: "),
                LangKeys::ModifiedAt => String::from_str("Modificat la: "),
            },
        }
    }
}

} // verus!
