//! What executors need to know about a compute device.
//!
//! A process that talks to a device holds an exclusive file lock keyed by
//! the runtime's type name ([`lock_file_name`]). Executors read the
//! device's capabilities and the size of the scratch buffer that they share
//! from a [`Device`].

use vstd::prelude::*;

verus! {

/// Default scratch size: 64 MiB.
pub const DEFAULT_SCRATCH_BYTES: usize = 67_108_864;

/// Capabilities of a compute device.
#[derive(Debug, Copy, Clone)]
pub struct DeviceProperties {
    /// Threads per plane (warp, subgroup).
    pub plane_size: u32,
    /// Maximum threads per workgroup.
    pub max_units_per_cube: u32,
    /// Maximum shared memory per workgroup, in bytes.
    pub max_shared_memory_size: usize,
}

/// A device with its shared scratch buffer.
///
/// The scratch buffer is fixed-size for the `Device`'s lifetime: executors
/// share it and must each fit within [`scratch_bytes`](Self::scratch_bytes).
#[derive(Debug, Copy, Clone)]
pub struct Device {
    pub properties: DeviceProperties,
    pub scratch_bytes: usize,
}

impl Device {
    /// A device with the default scratch budget.
    pub fn new(properties: DeviceProperties) -> (r: Self)
        ensures
            r.properties == properties,
            r.scratch_bytes == DEFAULT_SCRATCH_BYTES,
    {
        Self::with_scratch(properties, DEFAULT_SCRATCH_BYTES)
    }

    /// A device with an explicit scratch budget, in bytes.
    pub fn with_scratch(properties: DeviceProperties, scratch_bytes: usize) -> (r: Self)
        ensures
            r.properties == properties,
            r.scratch_bytes == scratch_bytes,
    {
        Device { properties, scratch_bytes }
    }

    /// Size of the shared scratch buffer in bytes.
    pub fn scratch_bytes(&self) -> (r: usize)
        ensures
            r == self.scratch_bytes,
    {
        self.scratch_bytes
    }
}

/// `c` is a letter or a digit of ASCII.
pub open spec fn is_safe(c: char) -> bool {
    ('0' <= c && c <= '9') || ('A' <= c && c <= 'Z') || ('a' <= c && c <= 'z')
}

/// `key` with every character that is not safe in a file name replaced by
/// an underscore.
pub open spec fn sanitized(key: Seq<char>) -> Seq<char> {
    Seq::new(
        key.len(),
        |i: int|
            if is_safe(key[i]) {
                key[i]
            } else {
                '_'
            },
    )
}

/// `String::push` appends one character.
pub assume_specification[ String::push ](s: &mut String, c: char)
    ensures
        final(s)@ == old(s)@.push(c),
;

/// The name of the lock file for a runtime: its type name, sanitized to a
/// filesystem-friendly key, between a fixed prefix and suffix.
pub fn lock_file_name(key: &str) -> (r: String)
    ensures
        r@ == "r0-cubecl-"@ + sanitized(key@) + ".lock"@,
{
    let mut name = "r0-cubecl-".to_owned();
    let ghost prefix = "r0-cubecl-"@;
    let len = key.unicode_len();
    let mut i: usize = 0;
    while i < len
        invariant
            i <= len,
            len == key@.len(),
            name@ == prefix + sanitized(key@).take(i as int),
        decreases len - i,
    {
        let c = key.get_char(i);
        let safe: bool = ('0' <= c && c <= '9') || ('A' <= c && c <= 'Z') || ('a' <= c && c
            <= 'z');
        let kept: char = if safe {
            c
        } else {
            '_'
        };
        name.push(kept);
        proof {
            let all = sanitized(key@);
            assert(all.take(i + 1) =~= all.take(i as int).push(all[i as int]));
        }
        i = i + 1;
    }
    proof {
        assert(sanitized(key@).take(len as int) =~= sanitized(key@));
    }
    name.concat(".lock")
}

/// A sanitized key, character by character: letters and digits of ASCII stay,
/// and everything else becomes an underscore.
pub proof fn law_sanitized_characters(key: Seq<char>, i: int)
    requires
        0 <= i < key.len(),
    ensures
        sanitized(key).len() == key.len(),
        (48 <= key[i] as int <= 57 || 65 <= key[i] as int <= 90 || 97 <= key[i] as int <= 122)
            ==> sanitized(key)[i] == key[i],
        !(48 <= key[i] as int <= 57 || 65 <= key[i] as int <= 90 || 97 <= key[i] as int <= 122)
            ==> sanitized(key)[i] == '_',
{
}

/// A device's scratch memory has 64 MiB by default.
pub proof fn law_default_scratch()
    ensures
        DEFAULT_SCRATCH_BYTES == 64 * 1024 * 1024,
{
}

} // verus!
