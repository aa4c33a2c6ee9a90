//! Helpers for naming and labelling objects of a graphics API that wants
//! its strings terminated by a zero byte.

use vstd::prelude::*;
use vstd::string::StringSliceAdditionalSpecFns;

verus! {

/// Whether the last byte of `bytes` is zero.
pub open spec fn ends_with_nul(bytes: Seq<u8>) -> bool {
    bytes.len() > 0 && bytes.last() == 0
}

/// `bytes` as a zero-terminated string: unchanged if the last byte is zero
/// already, else with one zero byte appended.  Zero bytes before the end
/// are left alone.
pub open spec fn nul_terminated(bytes: Seq<u8>) -> Seq<u8> {
    if ends_with_nul(bytes) {
        bytes
    } else {
        bytes.push(0u8)
    }
}

/// Scratch space for the zero-terminated copy of a name: a fixed buffer for
/// short names, a vector for the others.
pub struct CStrBuf {
    buf: [u8; 64],
    alloc: Vec<u8>,
}

impl CStrBuf {
    /// The bytes of the fixed buffer; there are always 64 of them.
    pub closed spec fn fixed(&self) -> Seq<u8> {
        self.buf@
    }

    /// The bytes of the vector that takes the names the fixed buffer is too
    /// short for.
    pub closed spec fn spill(&self) -> Seq<u8> {
        self.alloc@
    }

    /// Scratch space that holds no name yet: the fixed buffer is all zero
    /// bytes and the vector is empty.
    pub fn new() -> (r: Self)
        ensures
            r.fixed() == Seq::new(64, |i: int| 0u8),
            r.spill() == Seq::<u8>::empty(),
    {
        let r = CStrBuf { buf: [0u8; 64], alloc: Vec::new() };
        assert(r.buf@ =~= Seq::new(64, |i: int| 0u8));
        r
    }

    /// The bytes of `s`, terminated by a zero byte.  A name that ends in a
    /// zero byte is handed back as it is; any other is copied, into the
    /// fixed buffer if it is shorter than the buffer.
    pub fn get_cstr<'a>(&'a mut self, s: &'a str) -> (r: &'a [u8])
        ensures
            r@ == nul_terminated(s.spec_bytes()),
    {
        let bytes = s.as_bytes();
        let len: usize = bytes.len();
        if len > 0 && bytes[len - 1] == 0 {
            return bytes;
        }
        if len < 64 {
            let mut i: usize = 0;
            while i < len
                invariant
                    i <= len,
                    len < 64,
                    len == bytes@.len(),
                    forall|j: int| 0 <= j < i ==> self.buf@[j] == bytes@[j],
                decreases len - i,
            {
                self.buf[i] = bytes[i];
                i += 1;
            }
            self.buf[len] = 0;
            let r = &self.buf[0..len + 1];
            assert(r@ =~= bytes@.push(0u8));
            return r;
        }
        self.alloc.clear();
        let mut i: usize = 0;
        while i < len
            invariant
                i <= len,
                len == bytes@.len(),
                self.alloc@ == bytes@.take(i as int),
            decreases len - i,
        {
            self.alloc.push(bytes[i]);
            assert(self.alloc@ =~= bytes@.take(i as int + 1));
            i += 1;
        }
        self.alloc.push(0);
        assert(self.alloc@ =~= bytes@.push(0u8));
        self.alloc.as_slice()
    }
}

/// How loudly a message of the validation layer is reported.
#[derive(Clone, Copy, Debug, PartialEq, Eq, Structural, Hash)]
pub enum MessageLevel {
    Debug,
    Info,
    Warn,
    Error,
}

/// Severity bit of a verbose diagnostic message.
pub const SEVERITY_VERBOSE: u32 = 0x0000_0001;

/// Severity bit of an informational message.
pub const SEVERITY_INFO: u32 = 0x0000_0010;

/// Severity bit of a warning.
pub const SEVERITY_WARNING: u32 = 0x0000_0100;

/// Severity bit of an error.
pub const SEVERITY_ERROR: u32 = 0x0000_1000;

/// The level at which a message with the given severity flags is logged.
/// Flags that are not exactly one of the four severities count as a
/// warning.
pub open spec fn level_of(severity: u32) -> MessageLevel {
    if severity == SEVERITY_VERBOSE {
        MessageLevel::Debug
    } else if severity == SEVERITY_INFO {
        MessageLevel::Info
    } else if severity == SEVERITY_ERROR {
        MessageLevel::Error
    } else {
        MessageLevel::Warn
    }
}

/// Exec counterpart of [`level_of`].
pub fn message_level(severity: u32) -> (r: MessageLevel)
    ensures
        r == level_of(severity),
{
    if severity == SEVERITY_VERBOSE {
        MessageLevel::Debug
    } else if severity == SEVERITY_INFO {
        MessageLevel::Info
    } else if severity == SEVERITY_WARNING {
        MessageLevel::Warn
    } else if severity == SEVERITY_ERROR {
        MessageLevel::Error
    } else {
        MessageLevel::Warn
    }
}

} // verus!
