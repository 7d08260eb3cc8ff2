//! Errors of the buffer operations.
use vstd::prelude::*;

use crate::text::push_decimal;
use crate::types::ArenaIdx;

verus! {

/// A failure reported by the operating system: its error number and the text
/// that describes it.
#[derive(Debug)]
pub struct OsError {
    pub code: i32,
    pub text: String,
}

/// Errors produced by turbine buffer operations.
#[derive(Debug)]
pub enum TurbineError {
    /// The bump allocator of the current arena is exhausted.
    ArenaFull { requested: usize, available: usize },
    /// No arena serves the requested epoch.
    EpochNotFound(u64),
    /// The arena that served the epoch still has outstanding leases.
    EpochNotCollectable(u64, usize),
    /// An arena went away with outstanding leases.
    LeakedLeases(usize),
    /// `max_total_arenas` would be exceeded.
    ArenaLimitExceeded { current: usize, max: usize },
    /// All registration slots are occupied.
    NoRegistrationSlot(ArenaIdx),
    /// Mapping memory failed.
    Mmap(OsError),
    /// Unmapping memory failed.
    Munmap(OsError),
    /// Advising the kernel about unused pages failed.
    Madvise(OsError),
    /// The ring refused the buffer registration.
    Registration(OsError),
    /// The configuration breaks one of its rules.
    InvalidConfig(String),
}

impl TurbineError {
    /// The text that describes the error to a person.
    pub open spec fn message_text(&self) -> Seq<char> {
        match self {
            TurbineError::ArenaFull { requested, available } => "arena full: requested "@
                + crate::text::decimal(*requested as nat) + " bytes, "@
                + crate::text::decimal(*available as nat) + " available"@,
            TurbineError::EpochNotFound(epoch) => "epoch "@ + crate::text::decimal(*epoch as nat)
                + " not found in clock ring"@,
            TurbineError::EpochNotCollectable(epoch, leases) => "epoch "@
                + crate::text::decimal(*epoch as nat) + " still has "@
                + crate::text::decimal(*leases as nat) + " outstanding leases"@,
            TurbineError::LeakedLeases(leases) =>
                "arena still has outstanding leases on drop ("@
                + crate::text::decimal(*leases as nat) + " remaining)"@,
            TurbineError::ArenaLimitExceeded { current, max } => "arena limit exceeded: "@
                + crate::text::decimal(*current as nat) + " live, at most "@
                + crate::text::decimal(*max as nat) + " allowed"@,
            TurbineError::NoRegistrationSlot(idx) => "no registration slot left for arena "@
                + crate::text::decimal(idx@ as nat),
            TurbineError::Mmap(os) => "mmap failed: "@ + os.text@,
            TurbineError::Munmap(os) => "munmap failed: "@ + os.text@,
            TurbineError::Madvise(os) => "madvise failed: "@ + os.text@,
            TurbineError::Registration(os) => "io_uring buffer registration failed: "@ + os.text@,
            TurbineError::InvalidConfig(rule) => "pool configuration invalid: "@ + rule@,
        }
    }

    /// Renders the error for a person.
    pub fn to_string(&self) -> (r: String)
        ensures
            r@ == self.message_text(),
    {
        let mut out = String::new();
        match self {
            TurbineError::ArenaFull { requested, available } => {
                out.append("arena full: requested ");
                push_decimal(&mut out, *requested as u64);
                out.append(" bytes, ");
                push_decimal(&mut out, *available as u64);
                out.append(" available");
            },
            TurbineError::EpochNotFound(epoch) => {
                out.append("epoch ");
                push_decimal(&mut out, *epoch);
                out.append(" not found in clock ring");
            },
            TurbineError::EpochNotCollectable(epoch, leases) => {
                out.append("epoch ");
                push_decimal(&mut out, *epoch);
                out.append(" still has ");
                push_decimal(&mut out, *leases as u64);
                out.append(" outstanding leases");
            },
            TurbineError::LeakedLeases(leases) => {
                out.append("arena still has outstanding leases on drop (");
                push_decimal(&mut out, *leases as u64);
                out.append(" remaining)");
            },
            TurbineError::ArenaLimitExceeded { current, max } => {
                out.append("arena limit exceeded: ");
                push_decimal(&mut out, *current as u64);
                out.append(" live, at most ");
                push_decimal(&mut out, *max as u64);
                out.append(" allowed");
            },
            TurbineError::NoRegistrationSlot(idx) => {
                out.append("no registration slot left for arena ");
                push_decimal(&mut out, idx.as_usize() as u64);
            },
            TurbineError::Mmap(os) => {
                out.append("mmap failed: ");
                out.append(os.text.as_str());
            },
            TurbineError::Munmap(os) => {
                out.append("munmap failed: ");
                out.append(os.text.as_str());
            },
            TurbineError::Madvise(os) => {
                out.append("madvise failed: ");
                out.append(os.text.as_str());
            },
            TurbineError::Registration(os) => {
                out.append("io_uring buffer registration failed: ");
                out.append(os.text.as_str());
            },
            TurbineError::InvalidConfig(rule) => {
                out.append("pool configuration invalid: ");
                out.append(rule.as_str());
            },
        }
        assert(out@ =~= self.message_text());
        out
    }
}

impl TurbineError {
    /// The text of an error tells what went wrong and shows the numbers, or what
    /// the system or the configuration has to say about it.
    pub proof fn messages_show_what_happened(self)
        ensures
            self matches TurbineError::ArenaFull { requested, available } ==> self.message_text()
                == "arena full: requested "@ + crate::text::decimal(requested as nat) + " bytes, "@
                + crate::text::decimal(available as nat) + " available"@,
            self matches TurbineError::EpochNotFound(epoch) ==> self.message_text() == "epoch "@
                + crate::text::decimal(epoch as nat) + " not found in clock ring"@,
            self matches TurbineError::EpochNotCollectable(epoch, leases) ==> self.message_text()
                == "epoch "@ + crate::text::decimal(epoch as nat) + " still has "@
                + crate::text::decimal(leases as nat) + " outstanding leases"@,
            self matches TurbineError::LeakedLeases(leases) ==> self.message_text()
                == "arena still has outstanding leases on drop ("@ + crate::text::decimal(
                leases as nat,
            ) + " remaining)"@,
            self matches TurbineError::ArenaLimitExceeded { current, max } ==> self.message_text()
                == "arena limit exceeded: "@ + crate::text::decimal(current as nat)
                + " live, at most "@ + crate::text::decimal(max as nat) + " allowed"@,
            self matches TurbineError::NoRegistrationSlot(idx) ==> self.message_text()
                == "no registration slot left for arena "@ + crate::text::decimal(idx@ as nat),
            self matches TurbineError::Mmap(os) ==> self.message_text() == "mmap failed: "@
                + os.text@,
            self matches TurbineError::Munmap(os) ==> self.message_text() == "munmap failed: "@
                + os.text@,
            self matches TurbineError::Madvise(os) ==> self.message_text() == "madvise failed: "@
                + os.text@,
            self matches TurbineError::Registration(os) ==> self.message_text()
                == "io_uring buffer registration failed: "@ + os.text@,
            self matches TurbineError::InvalidConfig(rule) ==> self.message_text()
                == "pool configuration invalid: "@ + rule@,
    {
    }
}

} // verus!
