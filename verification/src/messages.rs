//! The exact text of every message the server sends, with one builder per
//! message and a contract pinning the result character for character.

use vstd::prelude::*;
use vstd::string::StringExecFns;

verus! {

/// The prompt sent to every client right after it connects.
pub open spec fn welcome_text() -> Seq<char> {
    "Welcome to my server! Please provide a nickname.\n"@
}

/// The unicast reply to a client whose requested nickname is taken.
pub open spec fn rejection_text(nickname: Seq<char>) -> Seq<char> {
    "nickname "@ + nickname + " is already taken. Please enter a new nickname\n"@
}

/// The announcement broadcast when a client joins.
pub open spec fn join_text(nickname: Seq<char>) -> Seq<char> {
    nickname + " Has Joined the chat! Welcome!\n"@
}

/// A relayed chat line; `line` keeps its trailing newline.
pub open spec fn relay_text(nickname: Seq<char>, line: Seq<char>) -> Seq<char> {
    "["@ + nickname + "]: "@ + line
}

/// Builds the welcome prompt.
pub fn welcome_message() -> (r: String)
    ensures
        r@ == welcome_text(),
{
    "Welcome to my server! Please provide a nickname.\n".to_owned()
}

/// Builds the rejection reply for a taken nickname.
pub fn rejection_message(nickname: &str) -> (r: String)
    ensures
        r@ == rejection_text(nickname@),
{
    let mut r = "nickname ".to_owned();
    r.append(nickname);
    r.append(" is already taken. Please enter a new nickname\n");
    r
}

/// Builds the join announcement for a new nickname.
pub fn join_message(nickname: &str) -> (r: String)
    ensures
        r@ == join_text(nickname@),
{
    let mut r = nickname.to_owned();
    r.append(" Has Joined the chat! Welcome!\n");
    r
}

/// Builds the relayed form of a chat line, newline and all.
pub fn relay_message(nickname: &str, line: &str) -> (r: String)
    ensures
        r@ == relay_text(nickname@, line@),
{
    let mut r = "[".to_owned();
    r.append(nickname);
    r.append("]: ");
    r.append(line);
    r
}

} // verus!
