//! The menu selections a console front end dispatches on, and the
//! parsing of a selection line into one of them.

use vstd::prelude::*;
use vstd::string::StrSliceExecFns;

verus! {

/// One of the four menu selections.
#[derive(Clone, Copy, Debug, PartialEq, Eq, Structural)]
pub enum MainMenu {
    AddEdit,
    View,
    Remove,
    Undo,
}

/// Which selection, if any, an input line denotes: "1" through "4",
/// anything else is unrecognized.
pub open spec fn spec_selection(s: Seq<char>) -> Option<MainMenu> {
    if s == seq!['1'] {
        Some(MainMenu::AddEdit)
    } else if s == seq!['2'] {
        Some(MainMenu::View)
    } else if s == seq!['3'] {
        Some(MainMenu::Remove)
    } else if s == seq!['4'] {
        Some(MainMenu::Undo)
    } else {
        None
    }
}

impl MainMenu {
    /// Parses a selection line.
    pub fn from_str(s: &str) -> (r: Option<MainMenu>)
        ensures
            r == spec_selection(s@),
    {
        if s.unicode_len() == 1 {
            let c = s.get_char(0);
            proof {
                assert(s@ =~= seq![c]);
            }
            match c {
                '1' => Some(MainMenu::AddEdit),
                '2' => Some(MainMenu::View),
                '3' => Some(MainMenu::Remove),
                '4' => Some(MainMenu::Undo),
                _ => None,
            }
        } else {
            None
        }
    }
}

} // verus!
