//! The resolved configuration of a run.

use vstd::prelude::*;
use crate::names::{copy_names, name_views};
use crate::rename::{RenameRules, RenameRulesSpec};

verus! {

/// The target representation.
#[derive(Clone, Copy, PartialEq, Eq, Structural, Debug)]
pub enum Language {
    /// The target has generics.
    Cxx,
    /// The target has no generics and wants a keyword before the name of an aggregate.
    C,
}

/// How aggregates are declared.
#[derive(Clone, Copy, PartialEq, Eq, Structural, Debug)]
pub enum Style {
    /// With a keyword and with a generated alias.
    Both,
    /// With a keyword only.
    Tag,
    /// With a generated alias only.
    Type,
}

impl Style {
    /// Whether every aggregate gets a generated alias.
    pub open spec fn spec_generate_typedef(self) -> bool {
        self is Both || self is Type
    }

    /// Whether every aggregate gets a generated alias.
    #[verifier::when_used_as_spec(spec_generate_typedef)]
    pub fn generate_typedef(self) -> (r: bool)
        ensures
            r == self.spec_generate_typedef(),
    {
        match self {
            Style::Both => true,
            Style::Tag => false,
            Style::Type => true,
        }
    }
}

/// What is exported, and under which names.
#[derive(Debug, PartialEq, Eq)]
pub struct ExportConfig {
    /// Paths that are kept even where nothing refers to them.
    pub retain: Vec<String>,
    /// Names that are dropped.
    pub exclude: Vec<String>,
    pub rename: RenameRules,
}

/// The configuration.
#[derive(Debug, PartialEq, Eq)]
pub struct Config {
    pub language: Language,
    pub style: Style,
    pub export: ExportConfig,
}

/// The mathematical model of `Config`.
pub struct ConfigSpec {
    pub language: Language,
    pub style: Style,
    pub retain: Seq<Seq<char>>,
    pub exclude: Seq<Seq<char>>,
    pub rename: RenameRulesSpec,
}

impl View for Config {
    type V = ConfigSpec;

    open spec fn view(&self) -> ConfigSpec {
        ConfigSpec {
            language: self.language,
            style: self.style,
            retain: name_views(self.export.retain@),
            exclude: name_views(self.export.exclude@),
            rename: self.export.rename@,
        }
    }
}

impl Config {
    /// A configuration for `language` that excludes, includes and renames nothing.
    pub fn new(language: Language) -> (r: Config)
        ensures
            r@.language == language,
            r@.style == Style::Both,
            r@.retain.len() == 0,
            r@.exclude.len() == 0,
            r@.rename.overrides.len() == 0,
            r@.rename.prefix is None,
    {
        Config {
            language,
            style: Style::Both,
            export: ExportConfig {
                retain: Vec::new(),
                exclude: Vec::new(),
                rename: RenameRules::new(),
            },
        }
    }

    /// A copy of this configuration.
    pub fn duplicate(&self) -> (r: Config)
        ensures
            r@ == self@,
    {
        Config {
            language: self.language,
            style: self.style,
            export: ExportConfig {
                retain: copy_names(&self.export.retain),
                exclude: copy_names(&self.export.exclude),
                rename: self.export.rename.duplicate(),
            },
        }
    }
}

} // verus!
