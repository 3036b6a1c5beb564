//! What the helpers of Linux and macOS are told, and what is made of what
//! they say.

use crate::flash_linux::{command_words, digest_lines, failure, last_lines, write_fault, ScriptArgs};
use crate::flash_macos::{admin_script, quoted, shell_escaped, string_escaped};
use crate::text::{joined, replaced, starts, text_lines, trimmed};
use crate::text_laws::{lemma_joined, lemma_parts, lemma_replaced};
use vstd::prelude::*;

verus! {

/// The text has the word in it.
pub open spec fn mentions(s: Seq<char>, w: Seq<char>) -> bool {
    exists|a: Seq<char>, b: Seq<char>| s == #[trigger] (a + w + b)
}

// ---------------------------------------------------------------------------
// Linux
// ---------------------------------------------------------------------------

/// The helper is run with the rights of the administrator and gets its
/// arguments in this order; keeping the machine awake puts words in front and
/// changes none of them.
pub proof fn lemma_command(a: ScriptArgs)
    ensures
        ({
            let w = command_words(false, a);
            let all = command_words(true, a);
            &&& w.len() == 10
            &&& w[0] == "pkexec"@ && w[1] == "bash"@
            &&& w[2] == a.script@ && w[3] == a.image@ && w[4] == a.device@
            &&& w[5] == a.dtbo@ && w[6] == a.variant@
            &&& w[7] == a.progress@ && w[8] == a.helper@
            &&& w[9] == (if a.verify {
                "1"@
            } else {
                "0"@
            })
            &&& all.len() == 15
            &&& all.skip(5) == w
            &&& all.take(5) == seq![
                "systemd-inhibit"@,
                "--what=idle:sleep:shutdown"@,
                "--who=ArchR Flasher"@,
                "--why=Writing SD card"@,
                "--mode=block"@,
            ]
        }),
{
    assert(command_words(true, a).skip(5) =~= command_words(false, a));
}

/// A prompt that was dismissed, or not authorized, is a cancellation,
/// whatever else was said.
pub proof fn lemma_dismissed(stderr: Seq<char>)
    ensures
        mentions(stderr, "dismissed"@) || mentions(stderr, "Not authorized"@) ==> failure(stderr)
            == "cancelled"@,
{
    lemma_parts(stderr, "dismissed"@);
    lemma_parts(stderr, "Not authorized"@);
}

/// The line tells of a failed write.
pub open spec fn tells_fault(l: Seq<char>) -> bool {
    ||| exists|x: Seq<char>| trimmed(l) == #[trigger] ("dd failed:"@ + x)
    ||| exists|x: Seq<char>| trimmed(l) == #[trigger] ("Script error at line"@ + x)
}

proof fn lemma_fault_line(l: Seq<char>, x: Seq<char>, after: Seq<Seq<char>>)
    ensures
        trimmed(l) == "dd failed:"@ + x ==> write_fault(seq![l] + after) == Some(
            "dd error: "@ + trimmed(x),
        ),
        trimmed(l) == "Script error at line"@ + x ==> write_fault(seq![l] + after) == Some(
            "dd error: script aborted at line"@ + x,
        ),
{
    let t = trimmed(l);
    assert((seq![l] + after)[0] == l);
    if t == "dd failed:"@ + x {
        let n = "dd failed:"@.len() as int;
        assert(t.subrange(0, n) =~= "dd failed:"@);
        assert(t.skip(n) =~= x);
    } else if t == "Script error at line"@ + x {
        let n = "Script error at line"@.len() as int;
        assert(t.subrange(0, n) =~= "Script error at line"@);
        assert(t.skip(n) =~= x);
        assert(!starts(t, "dd failed:"@)) by {
            reveal_strlit("dd failed:");
            reveal_strlit("Script error at line");
            assert(t[0] == 'S');
            if starts(t, "dd failed:"@) {
                assert(t.subrange(0, "dd failed:"@.len() as int)[0] == t[0]);
            }
        }
    }
    assert("dd failed:"@ + x != "Script error at line"@ + x) by {
        reveal_strlit("dd failed:");
        reveal_strlit("Script error at line");
        assert(("dd failed:"@ + x)[0] == 'd');
        assert(("Script error at line"@ + x)[0] == 'S');
    }
}

/// The first line that tells of a failed write gives the message: what it
/// says behind the colon, or the number of the line.
#[verifier::rlimit(40)]
pub proof fn lemma_write_fault(
    before: Seq<Seq<char>>,
    l: Seq<char>,
    x: Seq<char>,
    after: Seq<Seq<char>>,
)
    requires
        forall|i: int| 0 <= i < before.len() ==> !tells_fault(#[trigger] before[i]),
    ensures
        write_fault(before) is None,
        trimmed(l) == "dd failed:"@ + x ==> write_fault(before + seq![l] + after) == Some(
            "dd error: "@ + trimmed(x),
        ),
        trimmed(l) == "Script error at line"@ + x ==> write_fault(before + seq![l] + after) == Some(
            "dd error: script aborted at line"@ + x,
        ),
    decreases before.len(),
{
    let all = before + seq![l] + after;
    if before.len() == 0 {
        assert(all =~= seq![l] + after);
        lemma_fault_line(l, x, after);
    } else {
        assert(!tells_fault(before[0]));
        lemma_parts(trimmed(before[0]), "dd failed:"@);
        lemma_parts(trimmed(before[0]), "Script error at line"@);
        assert forall|i: int| 0 <= i < before.skip(1).len() implies !tells_fault(
            #[trigger] before.skip(1)[i],
        ) by {
            assert(before.skip(1)[i] == before[i + 1]);
        }
        lemma_write_fault(before.skip(1), l, x, after);
        assert(all[0] == before[0]);
        assert(all.skip(1) =~= before.skip(1) + seq![l] + after);
    }
}

/// Of a failed check the lines are kept that say what was expected and what
/// was got, each without the space around it, one below the other.
pub proof fn lemma_digest_lines(ls: Seq<Seq<char>>, l: Seq<char>)
    ensures
        digest_lines(Seq::empty()) == Seq::<char>::empty(),
        !mentions(l, "expected"@) && !mentions(l, "got"@) ==> digest_lines(ls.push(l))
            == digest_lines(ls),
        (mentions(l, "expected"@) || mentions(l, "got"@)) && digest_lines(ls).len() == 0
            ==> digest_lines(ls.push(l)) == trimmed(l),
        (mentions(l, "expected"@) || mentions(l, "got"@)) && digest_lines(ls).len() > 0
            ==> digest_lines(ls.push(l)) == digest_lines(ls) + seq!['\n'] + trimmed(l),
{
    reveal_strlit("\n");
    assert("\n"@ =~= seq!['\n']);
    lemma_parts(l, "expected"@);
    lemma_parts(l, "got"@);
    assert(ls.push(l).drop_last() =~= ls);
    assert(ls.push(l).last() == l);
}

/// Of a longer output the last four lines are shown.
pub proof fn lemma_last_lines(ls: Seq<Seq<char>>)
    ensures
        ls.len() <= 4 ==> last_lines(ls) == ls,
        ls.len() > 4 ==> last_lines(ls) == seq![
            ls[ls.len() - 4],
            ls[ls.len() - 3],
            ls[ls.len() - 2],
            ls[ls.len() - 1],
        ],
{
    if ls.len() > 4 {
        assert(last_lines(ls) =~= seq![
            ls[ls.len() - 4],
            ls[ls.len() - 3],
            ls[ls.len() - 2],
            ls[ls.len() - 1],
        ]);
    }
}

/// What is said of a helper that failed and was not cancelled: the failed
/// write if it told of one, else the failed check, else its last lines.
pub proof fn lemma_failure_told(stderr: Seq<char>)
    requires
        !mentions(stderr, "dismissed"@),
        !mentions(stderr, "Not authorized"@),
    ensures
        ({
            let ls = text_lines(trimmed(stderr));
            let r = failure(stderr);
            &&& write_fault(ls) is Some ==> r == write_fault(ls)->0
            &&& write_fault(ls) is None && mentions(trimmed(stderr), "Verification failed"@)
                && digest_lines(ls).len() == 0 ==> r == "verify_failed"@
            &&& write_fault(ls) is None && mentions(trimmed(stderr), "Verification failed"@)
                && digest_lines(ls).len() > 0 ==> r == "verify_failed: "@ + digest_lines(ls)
            &&& write_fault(ls) is None && !mentions(trimmed(stderr), "Verification failed"@) ==> r
                == "Flash failed: "@ + joined(last_lines(ls), seq![' ', '|', ' '])
        }),
{
    reveal_strlit(" | ");
    assert(" | "@ =~= seq![' ', '|', ' ']);
    lemma_parts(stderr, "dismissed"@);
    lemma_parts(stderr, "Not authorized"@);
    lemma_parts(trimmed(stderr), "Verification failed"@);
}

// ---------------------------------------------------------------------------
// macOS
// ---------------------------------------------------------------------------

/// Inside a string of a script a backslash stands before each backslash and
/// each quote, and nothing else is changed.
pub proof fn lemma_string_escaped(a: Seq<char>, x: char, b: Seq<char>)
    ensures
        string_escaped(a + b) == string_escaped(a) + string_escaped(b),
        string_escaped(seq![x]) == (if x == '\\' || x == '"' {
            seq!['\\', x]
        } else {
            seq![x]
        }),
        string_escaped(Seq::empty()) == Seq::<char>::empty(),
{
    reveal_strlit("\\\\");
    reveal_strlit("\\\"");
    let bs = "\\\\"@;
    let bq = "\\\""@;
    assert(bs =~= seq!['\\', '\\']);
    assert(bq =~= seq!['\\', '"']);
    lemma_replaced(a, b, x, '\\', bs);
    lemma_replaced(replaced(a, '\\', bs), replaced(b, '\\', bs), x, '"', bq);
    lemma_replaced(seq!['\\'], seq!['\\'], '\\', '"', bq);
    assert(seq!['\\'] + seq!['\\'] =~= seq!['\\', '\\']);
    assert(replaced(seq!['\\', '\\'], '"', bq) =~= seq!['\\', '\\']);
}

/// A word for the shell has its backslashes and quotes escaped, and each
/// single quote closed, escaped and opened again.
pub proof fn lemma_shell_escaped(a: Seq<char>, x: char, b: Seq<char>)
    ensures
        shell_escaped(a + b) == shell_escaped(a) + shell_escaped(b),
        shell_escaped(seq![x]) == (if x == '\\' || x == '"' {
            seq!['\\', x]
        } else if x == '\'' {
            seq!['\'', '\\', '\'', '\'']
        } else {
            seq![x]
        }),
        shell_escaped(Seq::empty()) == Seq::<char>::empty(),
{
    reveal_strlit("'\\''");
    let sq = "'\\''"@;
    assert(sq =~= seq!['\'', '\\', '\'', '\'']);
    lemma_string_escaped(a, x, b);
    lemma_replaced(string_escaped(a), string_escaped(b), x, '\'', sq);
    lemma_replaced(seq!['\\'], seq![x], x, '\'', sq);
    lemma_replaced(seq!['\\'], seq![x], '\\', '\'', sq);
    assert(seq!['\\'] + seq![x] =~= seq!['\\', x]);
    if x == '\\' || x == '"' {
        assert(replaced(seq!['\\', x], '\'', sq) =~= seq!['\\', x]);
    }
}

/// The words of a command before the script that runs them is closed.
pub open spec fn opened(words: Seq<Seq<char>>) -> Seq<char> {
    "do shell script \""@ + string_escaped("bash "@ + joined(quoted(words), " "@))
}

/// The script for the administrator: it runs bash, and each word adds itself
/// in single quotes, escaped for the shell and for the string it stands in.
#[verifier::rlimit(40)]
pub proof fn lemma_admin_script(words: Seq<Seq<char>>, w: Seq<char>)
    ensures
        admin_script(words) == opened(words) + "\" with administrator privileges"@,
        opened(seq![w]) == "do shell script \"bash '"@ + string_escaped(shell_escaped(w))
            + seq!['\''],
        words.len() > 0 ==> opened(words.push(w)) == opened(words) + seq![' ', '\'']
            + string_escaped(shell_escaped(w)) + seq!['\''],
{
    reveal_strlit("'");
    reveal_strlit(" ");
    reveal_strlit("bash ");
    let q = seq!['\''];
    let e = "'"@ + shell_escaped(w) + "'"@;
    assert("'"@ =~= q);
    assert(" "@ =~= seq![' ']);
    lemma_string_escaped(q, '\'', shell_escaped(w));
    lemma_string_escaped(q + shell_escaped(w), '\'', q);
    let s = string_escaped(shell_escaped(w));
    assert(string_escaped(e) == q + s + q);
    assert(quoted(words.push(w)) =~= quoted(words).push(e));
    assert(quoted(seq![w]) =~= seq![e]);
    lemma_joined(quoted(words), e, " "@);
    assert(opened(seq![w]) == "do shell script \"bash '"@ + s + q) by {
        lemma_joined(seq![], e, " "@);
        assert("bash "@ =~= seq!['b', 'a', 's', 'h', ' ']);
        lemma_bash();
        lemma_string_escaped("bash "@, 'b', e);
        reveal_strlit("do shell script \"");
        reveal_strlit("do shell script \"bash '");
        assert("do shell script \""@ + "bash "@ + q =~= "do shell script \"bash '"@);
        assert("do shell script \""@ + ("bash "@ + (q + s + q)) =~= "do shell script \""@ + "bash "@
            + q + s + q);
    }
    if words.len() > 0 {
        let j = joined(quoted(words), " "@);
        assert("bash "@ + (j + " "@ + e) =~= "bash "@ + j + seq![' '] + e);
        lemma_string_escaped("bash "@ + j + seq![' '], ' ', e);
        lemma_string_escaped("bash "@ + j, ' ', seq![' ']);
        assert(opened(words.push(w)) =~= opened(words) + seq![' ', '\''] + s + q);
    }
}

proof fn lemma_bash()
    ensures
        string_escaped("bash "@) == "bash "@,
{
    reveal_strlit("bash ");
    let b = seq!['b'];
    let ba = b + seq!['a'];
    let bas = ba + seq!['s'];
    let bash = bas + seq!['h'];
    lemma_string_escaped(b, 'b', seq!['a']);
    lemma_string_escaped(b, 'a', seq!['a']);
    lemma_string_escaped(ba, 's', seq!['s']);
    lemma_string_escaped(bas, 'h', seq!['h']);
    lemma_string_escaped(bash, ' ', seq![' ']);
    assert("bash "@ =~= bash + seq![' ']);
}

/// What is made of what the helper says on macOS. A cancelled prompt counts
/// first, then a failed write, a boot partition that did not mount and a busy
/// device; else its own words are shown. All but the first and the last but
/// one name the log.
pub proof fn lemma_macos_failure(stderr: Seq<char>, lower: Seq<char>, log: Seq<char>)
    ensures
        ({
            let r = crate::flash_macos::failure(stderr, lower, log);
            let cancelled = mentions(stderr, "User canceled"@) || mentions(stderr, "-128"@);
            let wrote = mentions(stderr, "err:dd_write"@);
            let mounted = mentions(stderr, "err:mount_boot"@);
            let busy = mentions(lower, "busy"@);
            let hint = " (log: "@ + log + ")"@;
            &&& cancelled ==> r == "cancelled"@
            &&& !cancelled && wrote ==> r == "err:dd_write"@ + hint
            &&& !cancelled && !wrote && mounted ==> r == "err:mount_boot"@ + hint
            &&& !cancelled && !wrote && !mounted && busy ==> r == "err:device_busy"@
            &&& !cancelled && !wrote && !mounted && !busy ==> r == "Flash failed: "@ + stderr + hint
        }),
{
    lemma_parts(stderr, "User canceled"@);
    lemma_parts(stderr, "-128"@);
    lemma_parts(stderr, "err:dd_write"@);
    lemma_parts(stderr, "err:mount_boot"@);
    lemma_parts(lower, "busy"@);
}

} // verus!
