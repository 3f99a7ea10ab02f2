//! The application descriptor shared by the index, the ranking and the
//! window enumerator.

use vstd::prelude::*;

verus! {

/// An application that can be launched, focused, or both.
///
/// `exec_command` empty means the entry cannot be launched; `select` empty means it
/// has no focus action.
#[derive(Debug, Clone, PartialEq, Eq)]
pub struct Entry {
    pub name: String,
    pub icon: String,
    pub exec_command: String,
    pub select: String,
}

/// The value of an [`Entry`]: its four texts.
pub struct EntryView {
    pub name: Seq<char>,
    pub icon: Seq<char>,
    pub exec_command: Seq<char>,
    pub select: Seq<char>,
}

impl View for Entry {
    type V = EntryView;

    open spec fn view(&self) -> EntryView {
        EntryView { name: self.name@, icon: self.icon@, exec_command: self.exec_command@, select: self.select@ }
    }
}

/// The entry with four empty texts, which parsing yields for a file without
/// a usable section.
pub open spec fn blank_entry() -> EntryView {
    EntryView { name: seq![], icon: seq![], exec_command: seq![], select: seq![] }
}

impl Default for Entry {
    fn default() -> (r: Entry)
        ensures
            r@ == blank_entry(),
    {
        Entry { name: String::new(), icon: String::new(), exec_command: String::new(), select: String::new() }
    }
}

impl Entry {
    pub fn new(name: String, icon: String, exec: String, select: String) -> (r: Entry)
        ensures
            r.name@ == name@,
            r.icon@ == icon@,
            r.exec_command@ == exec@,
            r.select@ == select@,
    {
        Entry { name, icon, exec_command: exec, select }
    }

    /// A copy of this entry.
    pub fn duplicate(&self) -> (r: Entry)
        ensures
            r@ == self@,
    {
        Entry {
            name: self.name.clone(),
            icon: self.icon.clone(),
            exec_command: self.exec_command.clone(),
            select: self.select.clone(),
        }
    }

    /// The command line that launches this application, or `None` when the
    /// entry is not launchable.
    pub fn try_exec(&self) -> (r: Option<String>)
        ensures
            self.exec_command@.len() == 0 ==> r is None,
            self.exec_command@.len() > 0 ==> (r matches Some(c) && c@ == self.exec_command@),
    {
        if self.exec_command.as_str().unicode_len() == 0 {
            None
        } else {
            Some(self.exec_command.clone())
        }
    }

    /// The command line that brings this application's window to the front,
    /// or `None` when the entry has no focus action.
    pub fn try_select(&self) -> (r: Option<String>)
        ensures
            self.select@.len() == 0 ==> r is None,
            self.select@.len() > 0 ==> (r matches Some(c) && c@ == self.select@),
    {
        if self.select.as_str().unicode_len() == 0 {
            None
        } else {
            Some(self.select.clone())
        }
    }
}

} // verus!
