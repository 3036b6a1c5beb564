//! Flashing on Linux: the command that runs the helper script with
//! privileges, and what its complaints mean.

use crate::text::{
    contains, join, join_all, joined, lemma_views_push, lines, occurs, skip, starts, starts_with,
    text_lines, trim, trimmed, views,
};
use vstd::prelude::*;

verus! {

/// What the helper script is told.
pub struct ScriptArgs {
    pub script: String,
    pub image: String,
    pub device: String,
    pub dtbo: String,
    pub variant: String,
    pub progress: String,
    pub helper: String,
    pub verify: bool,
}

/// The words of the command, the program first. Where sleep can be inhibited,
/// it is for as long as the command runs.
pub open spec fn command_words(inhibit: bool, a: ScriptArgs) -> Seq<Seq<char>> {
    (if inhibit {
        seq![
            "systemd-inhibit"@,
            "--what=idle:sleep:shutdown"@,
            "--who=ArchR Flasher"@,
            "--why=Writing SD card"@,
            "--mode=block"@,
        ]
    } else {
        Seq::empty()
    }) + seq![
        "pkexec"@,
        "bash"@,
        a.script@,
        a.image@,
        a.device@,
        a.dtbo@,
        a.variant@,
        a.progress@,
        a.helper@,
        if a.verify {
            "1"@
        } else {
            "0"@
        },
    ]
}

fn add_word(list: &mut Vec<String>, word: &str)
    ensures
        views(final(list)@) == views(old(list)@).push(word@),
{
    let s = word.to_string();
    proof {
        lemma_views_push(list@, s);
    }
    list.push(s);
}

/// The command that runs the helper script.
pub fn helper_command(inhibit: bool, a: &ScriptArgs) -> (r: Vec<String>)
    ensures
        views(r@) == command_words(inhibit, *a),
{
    let mut r: Vec<String> = Vec::new();
    if inhibit {
        add_word(&mut r, "systemd-inhibit");
        add_word(&mut r, "--what=idle:sleep:shutdown");
        add_word(&mut r, "--who=ArchR Flasher");
        add_word(&mut r, "--why=Writing SD card");
        add_word(&mut r, "--mode=block");
    }
    add_word(&mut r, "pkexec");
    add_word(&mut r, "bash");
    add_word(&mut r, a.script.as_str());
    add_word(&mut r, a.image.as_str());
    add_word(&mut r, a.device.as_str());
    add_word(&mut r, a.dtbo.as_str());
    add_word(&mut r, a.variant.as_str());
    add_word(&mut r, a.progress.as_str());
    add_word(&mut r, a.helper.as_str());
    add_word(&mut r, if a.verify { "1" } else { "0" });
    assert(views(r@) =~= command_words(inhibit, *a));
    r
}

/// The message for the first line that tells of a failed write.
pub open spec fn write_fault(ls: Seq<Seq<char>>) -> Option<Seq<char>>
    decreases ls.len(),
{
    if ls.len() == 0 {
        None
    } else {
        let l = trimmed(ls[0]);
        if starts(l, "dd failed:"@) {
            Some("dd error: "@ + trimmed(l.skip("dd failed:"@.len() as int)))
        } else if starts(l, "Script error at line"@) {
            Some(
                "dd error: script aborted at line"@ + l.skip("Script error at line"@.len() as int),
            )
        } else {
            write_fault(ls.skip(1))
        }
    }
}

/// The lines about the digests, one below the other.
pub open spec fn digest_lines(ls: Seq<Seq<char>>) -> Seq<char>
    decreases ls.len(),
{
    if ls.len() == 0 {
        Seq::empty()
    } else {
        let before = digest_lines(ls.drop_last());
        let l = ls.last();
        if !occurs(l, "expected"@) && !occurs(l, "got"@) {
            before
        } else if before.len() > 0 {
            before + "\n"@ + trimmed(l)
        } else {
            trimmed(l)
        }
    }
}

/// The last four lines, or as many as there are.
pub open spec fn last_lines(ls: Seq<Seq<char>>) -> Seq<Seq<char>> {
    if ls.len() > 4 {
        ls.skip(ls.len() - 4)
    } else {
        ls
    }
}

/// What is reported of a run that failed, by what it wrote to its error
/// stream.
pub open spec fn failure(stderr: Seq<char>) -> Seq<char> {
    let text = trimmed(stderr);
    let ls = text_lines(text);
    if occurs(stderr, "dismissed"@) || occurs(stderr, "Not authorized"@) {
        "cancelled"@
    } else {
        match write_fault(ls) {
            Some(m) => m,
            None => if occurs(text, "Verification failed"@) {
                if digest_lines(ls).len() == 0 {
                    "verify_failed"@
                } else {
                    "verify_failed: "@ + digest_lines(ls)
                }
            } else {
                "Flash failed: "@ + joined(last_lines(ls), " | "@)
            },
        }
    }
}

fn find_write_fault(ls: &Vec<String>) -> (r: Option<String>)
    ensures
        match r {
            Some(m) => write_fault(views(ls@)) == Some(m@),
            None => write_fault(views(ls@)) is None,
        },
{
    let ghost all = views(ls@);
    let mut i: usize = 0;
    assert(all.skip(0) =~= all);
    while i < ls.len()
        invariant
            i <= ls@.len(),
            all == views(ls@),
            write_fault(all) == write_fault(all.skip(i as int)),
        decreases ls@.len() - i,
    {
        assert(all.skip(i as int)[0] == ls@[i as int]@);
        assert(all.skip(i as int).skip(1) =~= all.skip(i + 1));
        let l = trim(ls[i].as_str());
        proof {
            reveal_strlit("dd failed:");
            reveal_strlit("Script error at line");
        }
        if starts_with(l.as_str(), "dd failed:") {
            let rest = skip(l.as_str(), 10);
            return Some(join("dd error: ", trim(rest.as_str()).as_str()));
        }
        if starts_with(l.as_str(), "Script error at line") {
            let rest = skip(l.as_str(), 20);
            return Some(join("dd error: script aborted at line", rest.as_str()));
        }
        i += 1;
    }
    None
}

fn collect_digest_lines(ls: &Vec<String>) -> (r: String)
    ensures
        r@ == digest_lines(views(ls@)),
{
    let ghost all = views(ls@);
    let mut r = String::new();
    let mut i: usize = 0;
    assert(r@ =~= digest_lines(all.take(0)));
    while i < ls.len()
        invariant
            i <= ls@.len(),
            all == views(ls@),
            r@ == digest_lines(all.take(i as int)),
        decreases ls@.len() - i,
    {
        assert(all.take(i + 1).drop_last() =~= all.take(i as int));
        assert(all.take(i + 1).last() == ls@[i as int]@);
        let l = ls[i].as_str();
        if contains(l, "expected") || contains(l, "got") {
            let t = trim(l);
            if r.as_str().is_empty() {
                r = t;
            } else {
                r = join(join(r.as_str(), "\n").as_str(), t.as_str());
            }
        }
        i += 1;
    }
    assert(all.take(i as int) =~= all);
    r
}

fn tail_lines(ls: &Vec<String>) -> (r: Vec<String>)
    ensures
        views(r@) == last_lines(views(ls@)),
{
    let ghost all = views(ls@);
    let start: usize = if ls.len() > 4 {
        ls.len() - 4
    } else {
        0
    };
    let mut r: Vec<String> = Vec::new();
    let mut i: usize = start;
    assert(views(r@) =~= all.subrange(start as int, i as int));
    while i < ls.len()
        invariant
            start <= i <= ls@.len(),
            all == views(ls@),
            views(r@) == all.subrange(start as int, i as int),
        decreases ls@.len() - i,
    {
        add_word(&mut r, ls[i].as_str());
        assert(views(r@) =~= all.subrange(start as int, i + 1));
        i += 1;
    }
    assert(views(r@) =~= last_lines(all));
    r
}

/// What is reported of a run that failed.
pub fn classify_failure(stderr: &str) -> (r: String)
    ensures
        r@ == failure(stderr@),
{
    if contains(stderr, "dismissed") || contains(stderr, "Not authorized") {
        return "cancelled".to_string();
    }
    let text = trim(stderr);
    let ls = lines(text.as_str());
    match find_write_fault(&ls) {
        Some(m) => {
            return m;
        },
        None => {},
    }
    if contains(text.as_str(), "Verification failed") {
        let detail = collect_digest_lines(&ls);
        if detail.as_str().is_empty() {
            return "verify_failed".to_string();
        }
        return join("verify_failed: ", detail.as_str());
    }
    join("Flash failed: ", join_all(&tail_lines(&ls), " | ").as_str())
}

} // verus!
