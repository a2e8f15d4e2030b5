//! The assistant whose sessions are read and whose configuration is kept up:
//! everything about it that a path or a prompt spells out follows from its name.

use vstd::prelude::*;

use crate::code_index::rows::opt_str_view;
use crate::embed::{setting, setting_or};
use crate::letters::{ascii_lower_all, ascii_upper_all, lower_all, upper_all};
use crate::text::{chars_of, push_all, push_text, string_of};

verus! {

/// The program that the assistant runs in, as prose names it.
pub open spec fn product(assistant: Seq<char>) -> Seq<char> {
    assistant + " Code"@
}

/// A file of the assistant's configuration, below the home directory.
pub open spec fn config_file(assistant: Seq<char>, name: Seq<char>) -> Seq<char> {
    "."@ + ascii_lower_all(assistant) + "/"@ + name
}

/// The file with the assistant's global rules.
pub open spec fn guide_file(assistant: Seq<char>) -> Seq<char> {
    ascii_upper_all(assistant) + ".md"@
}

/// The directory of the assistant's hook scripts, below the home directory.
pub open spec fn hooks_path(assistant: Seq<char>) -> Seq<char> {
    ".config/"@ + ascii_lower_all(assistant) + "-hooks"@
}

/// The project that memories about the assistant's configuration belong to.
pub open spec fn config_project(assistant: Seq<char>) -> Seq<char> {
    ascii_lower_all(assistant) + "-config"@
}

/// The command that starts the assistant: the one that is set, or its name in
/// small letters.
pub open spec fn program(configured: Option<Seq<char>>, assistant: Seq<char>) -> Seq<char> {
    setting(configured, ascii_lower_all(assistant))
}

/// The command that starts the assistant.
pub fn program_name(configured: Option<&str>, assistant: &str) -> (r: String)
    ensures
        r@ == program(opt_str_view(configured), assistant@),
{
    let a = chars_of(assistant);
    let name = string_of(lower_all(a.as_slice()).as_slice());
    setting_or(configured, name.as_str())
}

/// The program that the assistant runs in, as prose names it.
pub fn product_name(assistant: &str) -> (r: String)
    ensures
        r@ == product(assistant@),
{
    let mut s = chars_of(assistant);
    push_text(&mut s, " Code");
    string_of(s.as_slice())
}

/// A file of the assistant's configuration, below the home directory.
pub fn config_file_path(assistant: &str, name: &str) -> (r: String)
    ensures
        r@ == config_file(assistant@, name@),
{
    let a = chars_of(assistant);
    let mut s = chars_of(".");
    push_all(&mut s, lower_all(a.as_slice()).as_slice());
    push_text(&mut s, "/");
    push_text(&mut s, name);
    string_of(s.as_slice())
}

/// The file with the assistant's global rules.
pub fn guide_file_name(assistant: &str) -> (r: String)
    ensures
        r@ == guide_file(assistant@),
{
    let a = chars_of(assistant);
    let mut s = upper_all(a.as_slice());
    push_text(&mut s, ".md");
    string_of(s.as_slice())
}

/// The directory of the assistant's hook scripts, below the home directory.
pub fn hooks_dir_path(assistant: &str) -> (r: String)
    ensures
        r@ == hooks_path(assistant@),
{
    let a = chars_of(assistant);
    let mut s = chars_of(".config/");
    push_all(&mut s, lower_all(a.as_slice()).as_slice());
    push_text(&mut s, "-hooks");
    string_of(s.as_slice())
}

/// The project that memories about the assistant's configuration belong to.
pub fn outcome_project(assistant: &str) -> (r: String)
    ensures
        r@ == config_project(assistant@),
{
    let a = chars_of(assistant);
    let mut s = lower_all(a.as_slice());
    push_text(&mut s, "-config");
    string_of(s.as_slice())
}

} // verus!
