//! Counters and a read log for database accesses.

use vstd::prelude::*;

verus! {

/// The lower-case hexadecimal digit for a value below sixteen.
pub open spec fn hex_digit(nibble: int) -> char {
    if nibble < 10 {
        (48 + nibble) as u8 as char
    } else {
        (87 + nibble) as u8 as char
    }
}

/// The lower-case hexadecimal text of `bytes`: two digits per byte, the high
/// four bits first.
pub open spec fn hex_text(bytes: Seq<u8>) -> Seq<char> {
    Seq::new(
        2 * bytes.len(),
        |i: int| if i % 2 == 0 {
            hex_digit(bytes[i / 2] as int / 16)
        } else {
            hex_digit(bytes[i / 2] as int % 16)
        },
    )
}

/// Calls `rustc_hex::ToHex::to_hex` on a byte slice. The contract claims that
/// the result is the slice's lower-case hexadecimal text, two digits per byte
/// with the high four bits first, as the crate's loop over its digit table
/// writes it.
#[verifier::external_body]
fn to_hex(bytes: &[u8]) -> (text: String)
    ensures
        text@ == hex_text(bytes@),
{
    let text: String = rustc_hex::ToHex::to_hex(bytes);
    text
}

/// One logged database read: how long it took and the key that was read.
#[derive(Debug, Clone)]
pub struct Read {
    time_us: u128,
    key: String,
}

impl Read {
    /// The duration of the read in microseconds.
    pub closed spec fn spec_time_us(&self) -> u128 {
        self.time_us
    }

    /// The key that was read, as hexadecimal text.
    pub closed spec fn spec_key(&self) -> Seq<char> {
        self.key@
    }

    /// The duration of the read in microseconds.
    pub fn time_us(&self) -> (t: u128)
        ensures
            t == self.spec_time_us(),
    {
        self.time_us
    }

    /// The key that was read, as hexadecimal text.
    pub fn key(&self) -> (k: &String)
        ensures
            k@ == self.spec_key(),
    {
        &self.key
    }
}

/// Counters and the log of reads.
#[derive(Debug, Clone)]
pub struct DebugInfo {
    pub read_count: u32,
    pub db_read_time_us: u128,
    pub reads: Vec<Read>,
}

impl DebugInfo {
    /// A record with zero counters and no logged read.
    pub fn empty() -> (info: Self)
        ensures
            info.read_count == 0,
            info.db_read_time_us == 0,
            info.reads@ == Seq::<Read>::empty(),
    {
        Self { read_count: 0, db_read_time_us: 0, reads: Vec::new() }
    }

    /// Counts one more read.
    pub fn inc_read_count(&mut self)
        requires
            old(self).read_count < u32::MAX,
        ensures
            final(self).read_count == old(self).read_count + 1,
            final(self).db_read_time_us == old(self).db_read_time_us,
            final(self).reads == old(self).reads,
    {
        self.read_count += 1;
    }

    /// Appends a read of `key` that took `time_us` microseconds to the log; the
    /// key is logged as hexadecimal text. The counters stay as they are.
    pub fn add_read(&mut self, time_us: u128, key: &[u8])
        ensures
            final(self).read_count == old(self).read_count,
            final(self).db_read_time_us == old(self).db_read_time_us,
            final(self).reads@.len() == old(self).reads@.len() + 1,
            final(self).reads@.drop_last() == old(self).reads@,
            final(self).reads@.last().spec_time_us() == time_us,
            final(self).reads@.last().spec_key() == hex_text(key@),
    {
        let read = Read { time_us, key: to_hex(key) };
        self.reads.push(read);
    }
}

} // verus!
