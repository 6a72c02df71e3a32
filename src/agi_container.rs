//! The AGI container header: a fixed 64-byte record stored as a metadata
//! segment, and the segment checklist that a container must satisfy for
//! each execution mode.
use crate::codec::{
    get_le, le_bytes, le_value, lemma_bytes_of_le_value, lemma_le_bytes_len,
    lemma_le_value_bound, lemma_le_value_of_bytes, lemma_pow256_values, put_bytes, put_le,
};
use crate::error::RvfError;
use vstd::prelude::*;

verus! {

/// Magic bytes for the AGI container manifest: "RVAG".
pub const AGI_MAGIC: u32 = 0x5256_4147;

/// Size of the AGI container header in bytes.
pub const AGI_HEADER_SIZE: usize = 64;

/// Container includes a kernel segment.
pub const AGI_HAS_KERNEL: u16 = 1;
/// Container includes WASM modules.
pub const AGI_HAS_WASM: u16 = 2;
/// Container includes orchestrator configuration.
pub const AGI_HAS_ORCHESTRATOR: u16 = 4;
/// Container includes world-model vector and index data.
pub const AGI_HAS_WORLD_MODEL: u16 = 8;
/// Container includes an evaluation harness.
pub const AGI_HAS_EVAL: u16 = 16;
/// Container includes a promoted skill library.
pub const AGI_HAS_SKILLS: u16 = 32;
/// Container includes a witness chain.
pub const AGI_HAS_WITNESS: u16 = 64;
/// Container is cryptographically signed.
pub const AGI_SIGNED: u16 = 128;
/// All tool outputs are stored: the container supports replay mode.
pub const AGI_REPLAY_CAPABLE: u16 = 256;
/// Container can run without network.
pub const AGI_OFFLINE_CAPABLE: u16 = 512;
/// Container includes a tool adapter registry.
pub const AGI_HAS_TOOLS: u16 = 1024;
/// Container includes coherence gate configuration.
pub const AGI_HAS_COHERENCE_GATES: u16 = 2048;

/// Container execution mode.
#[derive(Clone, Copy, Debug, PartialEq, Eq, Hash, Structural)]
pub enum ExecutionMode {
    /// No external tool calls: stored receipts are replayed.
    Replay,
    /// Live tool calls whose outputs are stored and hashed.
    Verify,
    /// Full autonomous operation with governance controls.
    Live,
}

/// The wire value of each execution mode.
pub open spec fn mode_code(m: ExecutionMode) -> u8 {
    match m {
        ExecutionMode::Replay => 0,
        ExecutionMode::Verify => 1,
        ExecutionMode::Live => 2,
    }
}

impl ExecutionMode {
    /// Decodes an execution mode; an unknown value is handed back as the error.
    pub fn try_from(value: u8) -> (r: Result<ExecutionMode, u8>)
        ensures
            value <= 2 ==> (r matches Ok(m) && mode_code(m) == value),
            value > 2 ==> r == Err::<ExecutionMode, u8>(value),
    {
        match value {
            0 => Ok(ExecutionMode::Replay),
            1 => Ok(ExecutionMode::Verify),
            2 => Ok(ExecutionMode::Live),
            other => Err(other),
        }
    }

    /// The wire value of this mode.
    pub fn as_u8(&self) -> (r: u8)
        ensures
            r == mode_code(*self),
    {
        match self {
            ExecutionMode::Replay => 0,
            ExecutionMode::Verify => 1,
            ExecutionMode::Live => 2,
        }
    }
}

/// Wire-format AGI container header, exactly 64 bytes.
///
/// ```text
/// Offset  Type        Field
/// 0x00    u32         magic
/// 0x04    u16         version
/// 0x06    u16         flags
/// 0x08    [u8; 16]    container_id
/// 0x18    [u8; 16]    build_id
/// 0x28    u64         created_ns
/// 0x30    [u8; 8]     model_id_hash
/// 0x38    [u8; 8]     policy_hash
/// ```
#[derive(Clone, Copy, Debug, PartialEq, Eq)]
pub struct AgiContainerHeader {
    /// Magic bytes: `AGI_MAGIC`.
    pub magic: u32,
    /// Format version.
    pub version: u16,
    /// Bitfield flags indicating which segments are present.
    pub flags: u16,
    /// Unique container identifier.
    pub container_id: [u8; 16],
    /// Build identifier, changed on each repackaging.
    pub build_id: [u8; 16],
    /// Creation timestamp in nanoseconds since the UNIX epoch.
    pub created_ns: u64,
    /// Truncated digest of the pinned model identifier.
    pub model_id_hash: [u8; 8],
    /// Truncated digest of the governance policy.
    pub policy_hash: [u8; 8],
}

/// The 64 bytes of a header on the wire.
pub open spec fn agi_header_bytes(h: AgiContainerHeader) -> Seq<u8> {
    le_bytes(h.magic as nat, 4) + le_bytes(h.version as nat, 2) + le_bytes(h.flags as nat, 2)
        + h.container_id@ + h.build_id@ + le_bytes(h.created_ns as nat, 8) + h.model_id_hash@
        + h.policy_hash@
}

/// Whether bit `bit` is set in `flags`.
pub open spec fn has_flag(flags: u16, bit: u16) -> bool {
    flags & bit != 0
}

impl AgiContainerHeader {
    /// Checks the magic bytes.
    pub fn is_valid_magic(&self) -> (r: bool)
        ensures
            r == (self.magic == AGI_MAGIC),
    {
        self.magic == AGI_MAGIC
    }

    /// Whether the container is signed.
    pub fn is_signed(&self) -> (r: bool)
        ensures
            r == has_flag(self.flags, AGI_SIGNED),
    {
        self.flags & AGI_SIGNED != 0
    }

    /// Whether the container has a kernel.
    pub fn has_kernel(&self) -> (r: bool)
        ensures
            r == has_flag(self.flags, AGI_HAS_KERNEL),
    {
        self.flags & AGI_HAS_KERNEL != 0
    }

    /// Whether the container has an orchestrator configuration.
    pub fn has_orchestrator(&self) -> (r: bool)
        ensures
            r == has_flag(self.flags, AGI_HAS_ORCHESTRATOR),
    {
        self.flags & AGI_HAS_ORCHESTRATOR != 0
    }

    /// Whether the container supports replay mode.
    pub fn is_replay_capable(&self) -> (r: bool)
        ensures
            r == has_flag(self.flags, AGI_REPLAY_CAPABLE),
    {
        self.flags & AGI_REPLAY_CAPABLE != 0
    }

    /// Whether the container can run offline.
    pub fn is_offline_capable(&self) -> (r: bool)
        ensures
            r == has_flag(self.flags, AGI_OFFLINE_CAPABLE),
    {
        self.flags & AGI_OFFLINE_CAPABLE != 0
    }

    /// Serializes the header to its 64 wire bytes.
    pub fn to_bytes(&self) -> (r: [u8; AGI_HEADER_SIZE])
        ensures
            r@ == agi_header_bytes(*self),
    {
        let mut v: Vec<u8> = Vec::new();
        put_le(&mut v, self.magic as u64, 4);
        put_le(&mut v, self.version as u64, 2);
        put_le(&mut v, self.flags as u64, 2);
        put_bytes(&mut v, self.container_id.as_slice());
        put_bytes(&mut v, self.build_id.as_slice());
        put_le(&mut v, self.created_ns, 8);
        put_bytes(&mut v, self.model_id_hash.as_slice());
        put_bytes(&mut v, self.policy_hash.as_slice());
        proof {
            lemma_le_bytes_len(self.magic as nat, 4);
            lemma_le_bytes_len(self.version as nat, 2);
            lemma_le_bytes_len(self.flags as nat, 2);
            lemma_le_bytes_len(self.created_ns as nat, 8);
            assert(v@ =~= agi_header_bytes(*self));
        }
        let mut buf = [0u8; AGI_HEADER_SIZE];
        let mut i: usize = 0;
        while i < AGI_HEADER_SIZE
            invariant
                i <= AGI_HEADER_SIZE,
                v@.len() == AGI_HEADER_SIZE,
                buf@.len() == AGI_HEADER_SIZE,
                forall|j: int| 0 <= j < i ==> buf@[j] == v@[j],
            decreases AGI_HEADER_SIZE - i,
        {
            buf[i] = v[i];
            i = i + 1;
        }
        assert(buf@ =~= v@);
        buf
    }

    /// Deserializes a header from the first 64 bytes of `data`.
    pub fn from_bytes(data: &[u8]) -> (r: Result<AgiContainerHeader, RvfError>)
        ensures
            data@.len() < AGI_HEADER_SIZE ==> r == Err::<AgiContainerHeader, RvfError>(
                RvfError::SizeMismatch { expected: AGI_HEADER_SIZE, got: data@.len() as usize },
            ),
            data@.len() >= AGI_HEADER_SIZE && le_value(data@.subrange(0, 4)) != AGI_MAGIC ==> r
                == Err::<AgiContainerHeader, RvfError>(
                RvfError::BadMagic {
                    expected: AGI_MAGIC,
                    got: le_value(data@.subrange(0, 4)) as u32,
                },
            ),
            data@.len() >= AGI_HEADER_SIZE && le_value(data@.subrange(0, 4)) == AGI_MAGIC ==> (
            r matches Ok(h) && agi_header_bytes(h) == data@.subrange(0, 64)),
    {
        if data.len() < AGI_HEADER_SIZE {
            return Err(RvfError::SizeMismatch { expected: AGI_HEADER_SIZE, got: data.len() });
        }
        let magic = get_le(data, 0, 4) as u32;
        proof {
            lemma_pow256_values();
            lemma_le_value_bound(data@.subrange(0, 4));
        }
        if magic != AGI_MAGIC {
            return Err(RvfError::BadMagic { expected: AGI_MAGIC, got: magic });
        }
        let version = get_le(data, 4, 2);
        let flags = get_le(data, 6, 2);
        let created_ns = get_le(data, 40, 8);
        proof {
            lemma_le_value_bound(data@.subrange(4, 6));
            lemma_le_value_bound(data@.subrange(6, 8));
        }
        let mut container_id = [0u8; 16];
        let mut build_id = [0u8; 16];
        let mut i: usize = 0;
        while i < 16
            invariant
                i <= 16,
                data@.len() >= AGI_HEADER_SIZE,
                container_id@.len() == 16,
                build_id@.len() == 16,
                forall|j: int| 0 <= j < i ==> container_id@[j] == data@[8 + j],
                forall|j: int| 0 <= j < i ==> build_id@[j] == data@[24 + j],
            decreases 16 - i,
        {
            container_id[i] = data[8 + i];
            build_id[i] = data[24 + i];
            i = i + 1;
        }
        let mut model_id_hash = [0u8; 8];
        let mut policy_hash = [0u8; 8];
        let mut k: usize = 0;
        while k < 8
            invariant
                k <= 8,
                data@.len() >= AGI_HEADER_SIZE,
                model_id_hash@.len() == 8,
                policy_hash@.len() == 8,
                forall|j: int| 0 <= j < k ==> model_id_hash@[j] == data@[48 + j],
                forall|j: int| 0 <= j < k ==> policy_hash@[j] == data@[56 + j],
            decreases 8 - k,
        {
            model_id_hash[k] = data[48 + k];
            policy_hash[k] = data[56 + k];
            k = k + 1;
        }
        let h = AgiContainerHeader {
            magic,
            version: version as u16,
            flags: flags as u16,
            container_id,
            build_id,
            created_ns,
            model_id_hash,
            policy_hash,
        };
        proof {
            let d = data@;
            lemma_bytes_of_le_value(d.subrange(0, 4));
            lemma_bytes_of_le_value(d.subrange(4, 6));
            lemma_bytes_of_le_value(d.subrange(6, 8));
            lemma_bytes_of_le_value(d.subrange(40, 48));
            assert(container_id@ =~= d.subrange(8, 24));
            assert(build_id@ =~= d.subrange(24, 40));
            assert(model_id_hash@ =~= d.subrange(48, 56));
            assert(policy_hash@ =~= d.subrange(56, 64));
            assert(agi_header_bytes(h) =~= d.subrange(0, 64));
        }
        Ok(h)
    }
}

/// Two headers with the same wire bytes are the same header, so decoding the
/// bytes that `to_bytes` wrote gives back the header that wrote them.
pub proof fn lemma_agi_header_round_trip(h: AgiContainerHeader, g: AgiContainerHeader)
    requires
        agi_header_bytes(g) == agi_header_bytes(h),
    ensures
        g == h,
        le_value(agi_header_bytes(h).subrange(0, 4)) == h.magic,
{
    let b = agi_header_bytes(h);
    let c = agi_header_bytes(g);
    lemma_pow256_values();
    lemma_le_bytes_len(h.magic as nat, 4);
    lemma_le_bytes_len(h.version as nat, 2);
    lemma_le_bytes_len(h.flags as nat, 2);
    lemma_le_bytes_len(h.created_ns as nat, 8);
    lemma_le_bytes_len(g.magic as nat, 4);
    lemma_le_bytes_len(g.version as nat, 2);
    lemma_le_bytes_len(g.flags as nat, 2);
    lemma_le_bytes_len(g.created_ns as nat, 8);
    assert(b.subrange(0, 4) =~= le_bytes(h.magic as nat, 4));
    assert(c.subrange(0, 4) =~= le_bytes(g.magic as nat, 4));
    assert(b.subrange(4, 6) =~= le_bytes(h.version as nat, 2));
    assert(c.subrange(4, 6) =~= le_bytes(g.version as nat, 2));
    assert(b.subrange(6, 8) =~= le_bytes(h.flags as nat, 2));
    assert(c.subrange(6, 8) =~= le_bytes(g.flags as nat, 2));
    assert(b.subrange(40, 48) =~= le_bytes(h.created_ns as nat, 8));
    assert(c.subrange(40, 48) =~= le_bytes(g.created_ns as nat, 8));
    lemma_le_value_of_bytes(h.magic as nat, 4);
    lemma_le_value_of_bytes(g.magic as nat, 4);
    lemma_le_value_of_bytes(h.version as nat, 2);
    lemma_le_value_of_bytes(g.version as nat, 2);
    lemma_le_value_of_bytes(h.flags as nat, 2);
    lemma_le_value_of_bytes(g.flags as nat, 2);
    lemma_le_value_of_bytes(h.created_ns as nat, 8);
    lemma_le_value_of_bytes(g.created_ns as nat, 8);
    assert(h.container_id@ =~= b.subrange(8, 24));
    assert(g.container_id@ =~= c.subrange(8, 24));
    assert(h.build_id@ =~= b.subrange(24, 40));
    assert(g.build_id@ =~= c.subrange(24, 40));
    assert(h.model_id_hash@ =~= b.subrange(48, 56));
    assert(g.model_id_hash@ =~= c.subrange(48, 56));
    assert(h.policy_hash@ =~= b.subrange(56, 64));
    assert(g.policy_hash@ =~= c.subrange(56, 64));
    assert(g.container_id =~= h.container_id);
    assert(g.build_id =~= h.build_id);
    assert(g.model_id_hash =~= h.model_id_hash);
    assert(g.policy_hash =~= h.policy_hash);
}

/// Segments present in a container, checked against an execution mode.
#[derive(Clone, Debug, Default)]
pub struct ContainerSegments {
    /// A kernel segment is present.
    pub kernel_present: bool,
    /// Kernel segment size in bytes.
    pub kernel_size: u64,
    /// Number of WASM modules.
    pub wasm_count: u16,
    /// Total WASM size in bytes.
    pub wasm_total_size: u64,
    /// Number of vector segments of the world model.
    pub vec_segment_count: u16,
    /// Number of index segments.
    pub index_segment_count: u16,
    /// Number of witness bundles.
    pub witness_count: u32,
    /// A crypto segment is present.
    pub crypto_present: bool,
    /// The metadata segment holding the container manifest is present.
    pub manifest_present: bool,
    /// Total container size in bytes.
    pub total_size: u64,
}

/// Error type for AGI container operations.
#[derive(Debug, PartialEq, Eq)]
pub enum ContainerError {
    /// A required segment is missing.
    MissingSegment(&'static str),
    /// Container exceeds the size limit.
    TooLarge { size: u64 },
    /// Invalid segment configuration.
    InvalidConfig(&'static str),
    /// Signature verification failed.
    SignatureInvalid,
}

/// The segment that `validate` reports missing, if any: the manifest first,
/// then what the mode needs.
pub open spec fn missing_segment(s: ContainerSegments, mode: ExecutionMode) -> Option<Seq<char>> {
    if !s.manifest_present {
        Some("AGI manifest"@)
    } else if mode == ExecutionMode::Replay && s.witness_count == 0 {
        Some("witness chain"@)
    } else if mode != ExecutionMode::Replay && !s.kernel_present && s.wasm_count == 0 {
        Some("kernel or WASM runtime"@)
    } else {
        None
    }
}

/// The flags that the present segments imply.
pub open spec fn segment_flags(s: ContainerSegments) -> u16 {
    (if s.kernel_present { AGI_HAS_KERNEL } else { 0u16 }) | (if s.wasm_count > 0 {
        AGI_HAS_WASM
    } else {
        0u16
    }) | (if s.witness_count > 0 { AGI_HAS_WITNESS } else { 0u16 }) | (if s.crypto_present {
        AGI_SIGNED
    } else {
        0u16
    })
}

impl ContainerSegments {
    /// Checks that the container has every segment the execution mode needs.
    pub fn validate(&self, mode: ExecutionMode) -> (r: Result<(), ContainerError>)
        ensures
            missing_segment(*self, mode) is None ==> r is Ok,
            missing_segment(*self, mode) matches Some(m) ==> (r matches Err(
                ContainerError::MissingSegment(s),
            ) && s@ == m),
    {
        if !self.manifest_present {
            return Err(ContainerError::MissingSegment("AGI manifest"));
        }
        match mode {
            ExecutionMode::Replay => {
                if self.witness_count == 0 {
                    return Err(ContainerError::MissingSegment("witness chain"));
                }
            },
            ExecutionMode::Verify | ExecutionMode::Live => {
                if !self.kernel_present && self.wasm_count == 0 {
                    return Err(ContainerError::MissingSegment("kernel or WASM runtime"));
                }
            },
        }
        Ok(())
    }

    /// Computes the flags bitfield from the present segments.
    pub fn to_flags(&self) -> (r: u16)
        ensures
            r == segment_flags(*self),
    {
        let kernel = if self.kernel_present { AGI_HAS_KERNEL } else { 0u16 };
        let wasm = if self.wasm_count > 0 { AGI_HAS_WASM } else { 0u16 };
        let witness = if self.witness_count > 0 { AGI_HAS_WITNESS } else { 0u16 };
        let signed = if self.crypto_present { AGI_SIGNED } else { 0u16 };
        kernel | wasm | witness | signed
    }
}

/// The message of each container error.
pub open spec fn container_error_message(e: ContainerError) -> Seq<char> {
    match e {
        ContainerError::MissingSegment(s) => "missing segment: "@ + s@,
        ContainerError::TooLarge { size } => "container too large: "@ + decimal(size as nat)
            + " bytes"@,
        ContainerError::InvalidConfig(s) => "invalid config: "@ + s@,
        ContainerError::SignatureInvalid => "signature verification failed"@,
    }
}

/// The decimal digits of `n`, most significant first, without leading zeros.
pub open spec fn decimal(n: nat) -> Seq<char>
    decreases n,
{
    if n < 10 {
        seq![((n + 48) as u8) as char]
    } else {
        decimal(n / 10).push((((n % 10) + 48) as u8) as char)
    }
}

/// The one-character string of a decimal digit.
fn digit_str(d: u64) -> (r: &'static str)
    requires
        d < 10,
    ensures
        r@ == seq![((d + 48) as u8) as char],
{
    proof {
        reveal_strlit("0");
        reveal_strlit("1");
        reveal_strlit("2");
        reveal_strlit("3");
        reveal_strlit("4");
        reveal_strlit("5");
        reveal_strlit("6");
        reveal_strlit("7");
        reveal_strlit("8");
        reveal_strlit("9");
    }
    match d {
        0 => "0",
        1 => "1",
        2 => "2",
        3 => "3",
        4 => "4",
        5 => "5",
        6 => "6",
        7 => "7",
        8 => "8",
        _ => "9",
    }
}

/// Appends the decimal digits of `n` to `out`.
fn append_decimal(out: &mut String, n: u64)
    ensures
        final(out)@ == old(out)@ + decimal(n as nat),
    decreases n,
{
    if n >= 10 {
        append_decimal(out, n / 10);
    }
    let d = digit_str(n % 10);
    out.append(d);
    if n >= 10 {
        assert(final(out)@ =~= old(out)@ + decimal(n as nat));
    } else {
        assert(final(out)@ =~= old(out)@ + decimal(n as nat));
    }
}

impl ContainerError {
    /// A human-readable description of the error.
    pub fn to_string(&self) -> (r: String)
        ensures
            r@ == container_error_message(*self),
    {
        match self {
            ContainerError::MissingSegment(s) => {
                let mut r = String::from_str("missing segment: ");
                r.append(s);
                r
            },
            ContainerError::TooLarge { size } => {
                let mut r = String::from_str("container too large: ");
                append_decimal(&mut r, *size);
                r.append(" bytes");
                r
            },
            ContainerError::InvalidConfig(s) => {
                let mut r = String::from_str("invalid config: ");
                r.append(s);
                r
            },
            ContainerError::SignatureInvalid => String::from_str("signature verification failed"),
        }
    }
}

} // verus!
