//! The texts sent to the receipt printer.
use vstd::prelude::*;

verus! {

/// The receipt for `s`: a blank line before it, and three line breaks after
/// it so that the paper can be torn off cleanly.
pub open spec fn receipt_text_spec(s: Seq<char>) -> Seq<char> {
    seq!['\n'] + s + seq!['\n', '\n', '\n']
}

/// The text to print for `s`.
pub fn receipt_text(s: &str) -> (text: String)
    ensures
        text@ == receipt_text_spec(s@),
{
    proof {
        reveal_strlit("\n");
        reveal_strlit("\n\n\n");
    }
    let mut text = String::new();
    text.append("\n");
    text.append(s);
    text.append("\n\n\n");
    text
}

/// The message that asks the user to authorize the printer.
pub open spec fn user_code_prompt_spec(user_code: Seq<char>, verification_url: Seq<char>) -> Seq<char> {
    "Please enter "@ + user_code + " at "@ + verification_url + " and grant access to this application"@
}

/// The message that asks the user to enter `user_code` at `verification_url`.
pub fn user_code_prompt(user_code: &str, verification_url: &str) -> (text: String)
    ensures
        text@ == user_code_prompt_spec(user_code@, verification_url@),
{
    let mut text = String::new();
    text.append("Please enter ");
    text.append(user_code);
    text.append(" at ");
    text.append(verification_url);
    text.append(" and grant access to this application");
    text
}

} // verus!
