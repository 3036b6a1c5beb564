//! Flashing on macOS: the script that asks for privileges, and what the
//! complaints of a run mean.

use crate::text::{
    contains, join, join_all, joined, lemma_views_push, lower_form, occurs, replace, replaced,
    to_lowercase, views,
};
use vstd::prelude::*;

verus! {

/// A word made fit to stand between single quotes in a shell command inside a
/// double-quoted string.
pub open spec fn shell_escaped(s: Seq<char>) -> Seq<char> {
    replaced(replaced(replaced(s, '\\', "\\\\"@), '"', "\\\""@), '\'', "'\\''"@)
}

/// A text made fit to stand in a double-quoted string.
pub open spec fn string_escaped(s: Seq<char>) -> Seq<char> {
    replaced(replaced(s, '\\', "\\\\"@), '"', "\\\""@)
}

/// The words of a command, each between single quotes.
pub open spec fn quoted(words: Seq<Seq<char>>) -> Seq<Seq<char>> {
    words.map_values(|w: Seq<char>| "'"@ + shell_escaped(w) + "'"@)
}

/// The script that runs `bash` on the words with administrator privileges.
pub open spec fn admin_script(words: Seq<Seq<char>>) -> Seq<char> {
    "do shell script \""@ + string_escaped("bash "@ + joined(quoted(words), " "@))
        + "\" with administrator privileges"@
}

fn shell_escape(s: &str) -> (r: String)
    ensures
        r@ == shell_escaped(s@),
{
    let a = replace(s, '\\', "\\\\");
    let b = replace(a.as_str(), '"', "\\\"");
    replace(b.as_str(), '\'', "'\\''")
}

/// The script that runs `bash` on the words with administrator privileges.
pub fn privileged_script(words: &Vec<String>) -> (r: String)
    ensures
        r@ == admin_script(views(words@)),
{
    let ghost all = views(words@);
    let mut list: Vec<String> = Vec::new();
    let mut i: usize = 0;
    assert(views(list@) =~= quoted(all.take(0)));
    while i < words.len()
        invariant
            i <= words@.len(),
            all == views(words@),
            views(list@) == quoted(all.take(i as int)),
        decreases words@.len() - i,
    {
        let esc = shell_escape(words[i].as_str());
        let w = join(join("'", esc.as_str()).as_str(), "'");
        proof {
            lemma_views_push(list@, w);
        }
        list.push(w);
        assert(all.take(i + 1)[i as int] == words@[i as int]@);
        i += 1;
        assert(views(list@) =~= quoted(all.take(i as int)));
    }
    assert(all.take(i as int) =~= all);
    let cmd = join("bash ", join_all(&list, " ").as_str());
    let a = replace(cmd.as_str(), '\\', "\\\\");
    let b = replace(a.as_str(), '"', "\\\"");
    join(join("do shell script \"", b.as_str()).as_str(), "\" with administrator privileges")
}

/// What is reported of a run that failed, by what it wrote to its error
/// stream, that text in small letters, and the place of the log.
pub open spec fn failure(stderr: Seq<char>, lower: Seq<char>, log: Seq<char>) -> Seq<char> {
    let hint = " (log: "@ + log + ")"@;
    if occurs(stderr, "User canceled"@) || occurs(stderr, "-128"@) {
        "cancelled"@
    } else if occurs(stderr, "err:dd_write"@) {
        "err:dd_write"@ + hint
    } else if occurs(stderr, "err:mount_boot"@) {
        "err:mount_boot"@ + hint
    } else if occurs(lower, "busy"@) {
        "err:device_busy"@
    } else {
        "Flash failed: "@ + stderr + hint
    }
}

/// What is reported of a run that failed, given its error text in small
/// letters too.
pub fn classify_failure_with(stderr: &str, lower: &str, log: &str) -> (r: String)
    ensures
        r@ == failure(stderr@, lower@, log@),
{
    let hint = join(join(" (log: ", log).as_str(), ")");
    if contains(stderr, "User canceled") || contains(stderr, "-128") {
        "cancelled".to_string()
    } else if contains(stderr, "err:dd_write") {
        join("err:dd_write", hint.as_str())
    } else if contains(stderr, "err:mount_boot") {
        join("err:mount_boot", hint.as_str())
    } else if contains(lower, "busy") {
        "err:device_busy".to_string()
    } else {
        join(join("Flash failed: ", stderr).as_str(), hint.as_str())
    }
}

/// What is reported of a run that failed.
pub fn classify_failure(stderr: &str, log: &str) -> (r: String)
    ensures
        r@ == failure(stderr@, lower_form(stderr@), log@),
{
    let lower = to_lowercase(stderr);
    classify_failure_with(stderr, lower.as_str(), log)
}

} // verus!
