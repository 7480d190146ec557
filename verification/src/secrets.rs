//! The API key. It is kept in the system's keychain, which is the caller's to use.
use vstd::prelude::*;
use vstd::string::*;

use crate::text;

verus! {

/// What is to be done with the key in the keychain.
pub enum KeyUpdate {
    Store(String),
    Remove,
}

/// What is to be done, by what it holds.
pub enum KeyUpdateView {
    Store(Seq<char>),
    Remove,
}

impl View for KeyUpdate {
    type V = KeyUpdateView;

    open spec fn view(&self) -> KeyUpdateView {
        match self {
            KeyUpdate::Store(key) => KeyUpdateView::Store(key@),
            KeyUpdate::Remove => KeyUpdateView::Remove,
        }
    }
}

/// What is to be done where the user gives a key: it is stored without the white space
/// around it, and a blank one removes what is stored.
pub fn set_api_key(api_key: Option<&str>) -> (r: KeyUpdate)
    ensures
        r@ == match text::opt_str(api_key) {
            Some(key) => if text::blank(key) {
                KeyUpdateView::Remove
            } else {
                KeyUpdateView::Store(text::trimmed(key))
            },
            None => KeyUpdateView::Remove,
        },
{
    match api_key {
        Some(key) => if text::is_blank(key) {
            KeyUpdate::Remove
        } else {
            KeyUpdate::Store(text::trim(key))
        },
        None => KeyUpdate::Remove,
    }
}

/// What the keychain says of the key.
pub enum Stored {
    Key(String),
    /// There is no entry for it.
    Nothing,
    Failed(String),
}

/// The key that is stored, if there is one.
pub fn stored_key(found: Stored) -> (r: Result<Option<String>, String>)
    ensures
        match found {
            Stored::Key(key) => r matches Ok(Some(k)) && k@ == key@,
            Stored::Nothing => r matches Ok(None),
            Stored::Failed(e) => r matches Err(m) && m@ == "keychain read: "@ + e@,
        },
{
    match found {
        Stored::Key(key) => Ok(Some(key)),
        Stored::Nothing => Ok(None),
        Stored::Failed(e) => {
            let mut message = "keychain read: ".to_owned();
            message.append(e.as_str());
            Err(message)
        },
    }
}

} // verus!
