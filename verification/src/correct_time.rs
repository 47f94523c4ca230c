//! Setting the modification time of files from the correct-time list.
use vstd::prelude::*;
use crate::text::{fields_of, chars_of, string_of, split_chars, lemma_split_on_nonempty};

verus! {

/// The instant that `humantime` reads from an RFC 3339 time such as
/// `2021-08-18T17:13:00Z`, as seconds and nanoseconds since 1970-01-01T00:00:00Z, or
/// `None` where it refuses the text.
pub uninterp spec fn rfc3339_instant(text: Seq<char>) -> Option<(int, int)>;

/// `humantime::parse_rfc3339`, with the `SystemTime` it returns taken as the duration
/// since the Unix epoch. The crate refuses years before 1970, so that duration exists.
#[verifier::external_body]
fn parse_rfc3339_instant(text: &str) -> (r: Option<(u64, u32)>)
    ensures
        match r {
            Some((s, n)) => rfc3339_instant(text@) == Some((s as int, n as int)),
            None => rfc3339_instant(text@) is None,
        },
{
    match humantime::parse_rfc3339(text) {
        Ok(t) => match t.duration_since(std::time::UNIX_EPOCH) {
            Ok(d) => Some((d.as_secs(), d.subsec_nanos())),
            Err(_) => None,
        },
        Err(_) => None,
    }
}

/// The instant of an RFC 3339 time as seconds and nanoseconds since the Unix epoch, as
/// `humantime` reads it; `None` where it refuses the text.
pub fn modified_instant(text: &str) -> (r: Option<(u64, u32)>)
    ensures
        match r {
            Some((s, n)) => rfc3339_instant(text@) == Some((s as int, n as int)),
            None => rfc3339_instant(text@) is None,
        },
{
    parse_rfc3339_instant(text)
}

/// A line of the correct-time list, read: the path of the file, its time as written
/// when there is a second field, and that time as an instant where it can be read.
pub struct CorrectTimeEntry {
    pub path: String,
    pub modified: Option<String>,
    pub modified_instant: Option<(u64, u32)>,
}

/// Reads a line of the correct-time list (`path`, tab, time).
pub fn correct_time_entry(line: &str) -> (r: CorrectTimeEntry)
    ensures
        r.path@ == fields_of(line@)[0],
        r.modified is Some <==> fields_of(line@).len() >= 2,
        r.modified matches Some(m) ==> m@ == fields_of(line@)[1],
        match r.modified {
            Some(m) => match r.modified_instant {
                Some((s, n)) => rfc3339_instant(m@) == Some((s as int, n as int)),
                None => rfc3339_instant(m@) is None,
            },
            None => r.modified_instant is None,
        },
{
    let fields = split_chars(&chars_of(line), '\t');
    proof {
        lemma_split_on_nonempty(line@, '\t');
    }
    let path = string_of(&fields[0]);
    if fields.len() >= 2 {
        let m = string_of(&fields[1]);
        let instant = modified_instant(m.as_str());
        CorrectTimeEntry { path, modified: Some(m), modified_instant: instant }
    } else {
        CorrectTimeEntry { path, modified: None, modified_instant: None }
    }
}

} // verus!
