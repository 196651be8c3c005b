//! The interactive menu's option set and the rules for choosing an option
//! from raw input. Prompting and printing live with the caller; only the
//! decisions are here.
use vstd::prelude::*;
use vstd::string::StringExecFns;

use crate::text::spec_parse_u16;
use crate::{MenuError, NoteError, Result};

verus! {

/// The actions a user can choose from the menu.
#[derive(Debug, Clone, Copy, PartialEq, Eq, Structural)]
pub enum MenuOption {
    Create,
    Read,
    Update,
    Delete,
    List,
    AddFlag,
}

impl MenuOption {
    /// The number a user types to choose this option.
    pub open spec fn spec_number(self) -> u8 {
        match self {
            MenuOption::Create => 1,
            MenuOption::Read => 2,
            MenuOption::Update => 3,
            MenuOption::Delete => 4,
            MenuOption::List => 5,
            MenuOption::AddFlag => 6,
        }
    }

    /// The label the menu shows for this option.
    pub open spec fn spec_label(self) -> Seq<char> {
        match self {
            MenuOption::Create => ("Create note")@,
            MenuOption::Read => ("Read note")@,
            MenuOption::Update => ("Update note")@,
            MenuOption::Delete => ("Delete note")@,
            MenuOption::List => ("List notes")@,
            MenuOption::AddFlag => ("Add note with flag")@,
        }
    }

    /// This option's number.
    pub fn number(self) -> (r: u8)
        ensures
            r == self.spec_number(),
    {
        match self {
            MenuOption::Create => 1,
            MenuOption::Read => 2,
            MenuOption::Update => 3,
            MenuOption::Delete => 4,
            MenuOption::List => 5,
            MenuOption::AddFlag => 6,
        }
    }

    /// This option's label.
    pub fn label(self) -> (r: &'static str)
        ensures
            r@ == self.spec_label(),
    {
        match self {
            MenuOption::Create => "Create note",
            MenuOption::Read => "Read note",
            MenuOption::Update => "Update note",
            MenuOption::Delete => "Delete note",
            MenuOption::List => "List notes",
            MenuOption::AddFlag => "Add note with flag",
        }
    }

    /// The option numbered `n`, for numbers 1 to 6.
    pub fn from_number(n: u8) -> (r: Option<MenuOption>)
        ensures
            match r {
                Some(o) => o.spec_number() == n,
                None => n < 1 || n > 6,
            },
    {
        match n {
            1 => Some(MenuOption::Create),
            2 => Some(MenuOption::Read),
            3 => Some(MenuOption::Update),
            4 => Some(MenuOption::Delete),
            5 => Some(MenuOption::List),
            6 => Some(MenuOption::AddFlag),
            _ => None,
        }
    }

    /// The option chosen by raw menu input: the input must parse as a number
    /// (one that fits in eight bits), and the number must name an option.
    pub fn from_input(s: &str) -> (r: Result<MenuOption>)
        ensures
            match spec_parse_u16(s@) {
                Some(v) => if v <= 255 {
                    match r {
                        Ok(o) => o.spec_number() == v,
                        Err(e) => e == NoteError::Menu(MenuError::InvalidOption(v as u8)) && (v < 1
                            || v > 6),
                    }
                } else {
                    r matches Err(NoteError::Menu(MenuError::ParseError(raw))) && raw@ == s@
                },
                None => r matches Err(NoteError::Menu(MenuError::ParseError(raw))) && raw@ == s@,
            },
    {
        let parsed = crate::text::parse_u16(s);
        match parsed {
            Some(v) if v <= 255 => match Self::from_number(v as u8) {
                Some(o) => Ok(o),
                None => Err(NoteError::Menu(MenuError::InvalidOption(v as u8))),
            },
            _ => Err(NoteError::Menu(MenuError::ParseError(s.to_owned()))),
        }
    }
}

} // verus!
