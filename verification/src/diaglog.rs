//! The lines of the diagnostic log of a flash run.

use crate::text::{decimal, decimal_of, join, same};
use vstd::prelude::*;

verus! {

/// Names the log in an error message, behind the token that the message may
/// start with. A cancelled run needs no log.
pub fn with_log_hint(err: String, log_path: &str) -> (r: String)
    ensures
        r@ == (if err@ == "cancelled"@ {
            err@
        } else {
            err@ + " (log: "@ + log_path@ + ")"@
        }),
{
    if same(err.as_str(), "cancelled") {
        return err;
    }
    join(join(join(err.as_str(), " (log: ").as_str(), log_path).as_str(), ")")
}

/// The first line of a log.
pub fn log_header(version: &str, os: &str, started: u64) -> (r: String)
    ensures
        r@ == "archr-flasher "@ + version@ + " flash log (os: "@ + os@ + ", started: "@ + decimal(
            started as nat,
        ) + " unix)\n"@,
{
    let a = join(join("archr-flasher ", version).as_str(), " flash log (os: ");
    let b = join(join(a.as_str(), os).as_str(), ", started: ");
    join(join(b.as_str(), decimal_of(started).as_str()).as_str(), " unix)\n")
}

/// The lines that say what is flashed.
pub fn run_lines(device: &str, image: &str, verify: bool) -> (r: String)
    ensures
        r@ == "device: "@ + device@ + "\nimage: "@ + image@ + "\nverify: "@ + (if verify {
            "true"@
        } else {
            "false"@
        }) + "\n"@,
{
    let a = join(join("device: ", device).as_str(), "\nimage: ");
    let b = join(join(a.as_str(), image).as_str(), "\nverify: ");
    join(join(b.as_str(), if verify { "true" } else { "false" }).as_str(), "\n")
}

/// The line that says how a run ended.
pub fn result_line(result: &Result<(), String>) -> (r: String)
    ensures
        r@ == (match result {
            Ok(_) => "result: success\n"@,
            Err(e) => "result: "@ + e@ + "\n"@,
        }),
{
    match result {
        Ok(_) => "result: success\n".to_string(),
        Err(e) => join(join("result: ", e.as_str()).as_str(), "\n"),
    }
}

} // verus!
