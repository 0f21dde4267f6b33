use vstd::prelude::*;

verus! {

/// One instruction of a section.
#[derive(Debug, Clone, PartialEq)]
pub enum Command {
    /// A motion of the given kind (`forward`, `backward`, `direction` or `wait`) and amount.
    Move { kind: String, amount: i32 },
    /// A call of the section named by `label`.
    Jump { label: String },
}

/// A named, ordered group of commands.
#[derive(Debug, Clone, PartialEq)]
pub struct Section {
    pub name: String,
    pub commands: Vec<Command>,
}

/// A parsed program: its sections in source order.
#[derive(Debug, Clone, PartialEq)]
pub struct Program {
    pub sections: Vec<Section>,
}

pub enum CommandView {
    Move { kind: Seq<char>, amount: i32 },
    Jump { label: Seq<char> },
}

pub struct SectionView {
    pub name: Seq<char>,
    pub commands: Seq<CommandView>,
}

impl View for Command {
    type V = CommandView;

    open spec fn view(&self) -> CommandView {
        match self {
            Command::Move { kind, amount } => CommandView::Move { kind: kind@, amount: *amount },
            Command::Jump { label } => CommandView::Jump { label: label@ },
        }
    }
}

impl View for Section {
    type V = SectionView;

    open spec fn view(&self) -> SectionView {
        SectionView { name: self.name@, commands: self.commands@.map_values(|c: Command| c@) }
    }
}

impl View for Program {
    type V = Seq<SectionView>;

    open spec fn view(&self) -> Seq<SectionView> {
        self.sections@.map_values(|s: Section| s@)
    }
}

} // verus!
