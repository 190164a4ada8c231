//! Small helpers for logs and clocks.

use vstd::prelude::*;
use vstd::string::StringSliceAdditionalSpecFns;

use crate::stickers::trim;
use crate::stickers::trim_spec;

verus! {

/// Short display form of a node id: its first eight bytes when they end on
/// a character boundary, else the whole id.
pub fn node_short(id: &str) -> (s: String)
    ensures
        vstd::utf8::is_char_boundary(id.spec_bytes(), 8) ==> vstd::utf8::encode_utf8(s@)
            == id.spec_bytes().subrange(0, 8),
        !vstd::utf8::is_char_boundary(id.spec_bytes(), 8) ==> s@ == id@,
{
    if id.is_char_boundary(8) {
        let (head, _) = id.split_at(8);
        head.to_owned()
    } else {
        id.to_owned()
    }
}

/// `SystemTime::now()` since the Unix epoch, zero if the clock is before it.
/// Nothing is stated of the value: it is the machine's clock.
#[verifier::external_body]
pub fn systime() -> (d: std::time::Duration) {
    std::time::SystemTime::now().duration_since(std::time::UNIX_EPOCH).unwrap_or(
        std::time::Duration::from_secs(0),
    )
}

/// A line of the relay's control socket.
#[derive(Clone, Debug, PartialEq, Eq)]
pub enum ControlCommand {
    /// `clear-db`: empty the store.
    ClearDb,
    /// Anything else, trimmed, to be answered as unknown.
    Unknown(String),
}

/// Read one control line: surrounding whitespace is ignored.
pub fn control_command(line: &str) -> (c: ControlCommand)
    ensures
        trim_spec(line@) == "clear-db"@ ==> c == ControlCommand::ClearDb,
        trim_spec(line@) != "clear-db"@ ==> (c matches ControlCommand::Unknown(t) && t@ == trim_spec(line@)),
{
    let t = trim(line);
    let lit = "clear-db";
    proof {
        reveal_strlit("clear-db");
    }
    let ts = t.as_str();
    let n = ts.unicode_len();
    if n != lit.unicode_len() {
        return ControlCommand::Unknown(t);
    }
    let mut i: usize = 0;
    while i < n
        invariant
            n == ts@.len(),
            n == lit@.len(),
            ts@ == t@,
            t@ == trim_spec(line@),
            lit@ == "clear-db"@,
            i <= n,
            forall|j: int| 0 <= j < i ==> ts@[j] == lit@[j],
        decreases n - i,
    {
        if ts.get_char(i) != lit.get_char(i) {
            assert(ts@[i as int] != lit@[i as int]);
            return ControlCommand::Unknown(t);
        }
        i += 1;
    }
    assert(ts@ =~= lit@);
    ControlCommand::ClearDb
}

} // verus!
