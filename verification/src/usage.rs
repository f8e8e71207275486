//! The usage line of the command.

use itertools::Itertools;
use vstd::prelude::*;
use vstd::string::StringExecFns;

verus! {

/// The items written one after the other with `sep` between each two.
pub open spec fn joined_text(items: Seq<&str>, sep: Seq<char>) -> Seq<char>
    decreases items.len(),
{
    if items.len() == 0 {
        Seq::empty()
    } else if items.len() == 1 {
        items[0]@
    } else {
        joined_text(items.drop_last(), sep) + sep + items.last()@
    }
}

/// Writes the items one after the other with `sep` between each two.
/// Stands for `Itertools::format` of itertools, formatted once with `{}`:
/// the first item is written as it is, and each further item after a
/// separator.
#[verifier::external_body]
fn joined(items: &[&str], sep: &str) -> (text: String)
    ensures
        text@ == joined_text(items@, sep@),
{
    format!("{}", items.iter().format(sep))
}

/// The text of the usage line for a command called `name` that knows the
/// given methods and prints completions for the given shells.
pub open spec fn usage_text(name: Seq<char>, methods: Seq<&str>, shells: Seq<&str>) -> Seq<char> {
    name + " <"@ + joined_text(methods, " | "@) + "> <--stdin | PATH...>\n OR:\n    "@ + name
        + " completions <"@ + joined_text(shells, " | "@) + ">"@
}

/// Builds the usage line: the two ways to call the command, with the
/// methods and the shells to choose from.
pub fn usage(name: &str, methods: &[&str], shells: &[&str]) -> (text: String)
    ensures
        text@ == usage_text(name@, methods@, shells@),
{
    let mut text = String::from_str(name);
    text.append(" <");
    text.append(joined(methods, " | ").as_str());
    text.append("> <--stdin | PATH...>\n OR:\n    ");
    text.append(name);
    text.append(" completions <");
    text.append(joined(shells, " | ").as_str());
    text.append(">");
    text
}

} // verus!
