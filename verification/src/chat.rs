//! Name and content validation of the chat relay.
//!
//! A username must be nonempty and consist of letters and digits only;
//! message content is carried as it came.

use vstd::prelude::*;
use vstd::string::StrSliceExecFns;
use vstd::string::StringExecFns;
use crate::text::char_is_alphanumeric;
use crate::text::unicode_alnum;

verus! {

/// A validated chat username.
#[derive(Clone, Debug, PartialEq)]
pub struct Username(String);

impl View for Username {
    type V = Seq<char>;

    closed spec fn view(&self) -> Seq<char> {
        self.0@
    }
}

impl Username {
    /// The name's characters.
    pub fn get(&self) -> (r: &str)
        ensures
            r@ == self@,
    {
        self.0.as_str()
    }

    /// Accepts a name exactly when it is nonempty and alphanumeric
    /// throughout; a rejected name names its defect.
    pub fn new(name: &str) -> (r: Result<Username, &'static str>)
        ensures
            r is Ok <==> (name@.len() > 0 && forall|k: int|
                0 <= k < name@.len() ==> unicode_alnum(#[trigger] name@[k])),
            r matches Ok(u) ==> u@ == name@,
            r matches Err(e) ==> (if name@.len() == 0 {
                e@ == "name empty"@
            } else {
                e@ == "name contains non-alphanumeric characters"@
            }),
    {
        if name.is_empty() {
            return Err("name empty");
        }
        let n = name.unicode_len();
        let mut i: usize = 0;
        while i < n
            invariant
                i <= n,
                n == name@.len(),
                forall|k: int| 0 <= k < i ==> unicode_alnum(#[trigger] name@[k]),
            decreases n - i,
        {
            if !char_is_alphanumeric(name.get_char(i)) {
                return Err("name contains non-alphanumeric characters");
            }
            i += 1;
        }
        Ok(Username(String::from_str(name)))
    }
}

/// One chat message's text, carried unchanged.
#[derive(Clone, Debug)]
pub struct Content(String);

impl View for Content {
    type V = Seq<char>;

    closed spec fn view(&self) -> Seq<char> {
        self.0@
    }
}

impl Content {
    /// The text.
    pub fn get(&self) -> (r: &str)
        ensures
            r@ == self@,
    {
        self.0.as_str()
    }

    /// Wraps a line of text as message content.
    pub fn new(content: &str) -> (r: Content)
        ensures
            r@ == content@,
    {
        Content(String::from_str(content))
    }
}

} // verus!
