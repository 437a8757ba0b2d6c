//! The bundle that a run hands to the stage that writes the header.

use vstd::prelude::*;
use crate::config::{Config, ConfigSpec};
use crate::item::{views, Function, FunctionSpec, Item, ItemSpec};
use crate::names::name_views;

verus! {

/// The final form of a library, ready to be written out.
#[derive(Debug)]
pub struct Bindings {
    pub config: Config,
    /// The constants, sorted by path.
    pub constants: Vec<Item>,
    /// The globals, sorted by path.
    pub globals: Vec<Item>,
    /// Enums, structs, unions, opaque items and aliases, each after what it contains.
    pub items: Vec<Item>,
    /// The functions, sorted by name.
    pub functions: Vec<Function>,
    /// The paths of the entities that kept their own annotations when an alias
    /// had annotations to hand on to them.
    pub conflicts: Vec<String>,
}

/// The mathematical model of `Bindings`.
pub struct BindingsSpec {
    pub config: ConfigSpec,
    pub constants: Seq<ItemSpec>,
    pub globals: Seq<ItemSpec>,
    pub items: Seq<ItemSpec>,
    pub functions: Seq<FunctionSpec>,
    pub conflicts: Seq<Seq<char>>,
}

impl View for Bindings {
    type V = BindingsSpec;

    open spec fn view(&self) -> BindingsSpec {
        BindingsSpec {
            config: self.config@,
            constants: views(self.constants@),
            globals: views(self.globals@),
            items: views(self.items@),
            functions: views(self.functions@),
            conflicts: name_views(self.conflicts@),
        }
    }
}

impl Bindings {
    /// The bundle of these parts.
    pub fn new(
        config: Config,
        constants: Vec<Item>,
        globals: Vec<Item>,
        items: Vec<Item>,
        functions: Vec<Function>,
        conflicts: Vec<String>,
    ) -> (r: Bindings)
        ensures
            r@ == (BindingsSpec {
                config: config@,
                constants: views(constants@),
                globals: views(globals@),
                items: views(items@),
                functions: views(functions@),
                conflicts: name_views(conflicts@),
            }),
    {
        Bindings { config, constants, globals, items, functions, conflicts }
    }
}

} // verus!
