//! The purposes under which region sidecars are bound.
//!
//! A purpose is the hash of a list of byte strings under a domain: the role
//! of the sidecar and the domains of the walks it certifies. The host hashes;
//! what is hashed is fixed here, and no two roles share it.
use vstd::prelude::*;

verus! {

/// What is hashed into the purpose of one sidecar, as ASCII text: the domain
/// of the hash and its inputs, in order.
#[derive(Clone, Debug)]
pub struct SidecarPurpose {
    pub domain: &'static str,
    pub inputs: Vec<&'static str>,
}

impl SidecarPurpose {
    /// The purpose hashes these inputs under this domain.
    pub open spec fn hashes(&self, domain: Seq<char>, inputs: Seq<Seq<char>>) -> bool {
        &&& self.domain@ == domain
        &&& self.inputs@.len() == inputs.len()
        &&& forall|i: int| 0 <= i < inputs.len() ==> (#[trigger] self.inputs@[i])@ == inputs[i]
    }
}

fn one_input(domain: &'static str, input: &'static str) -> (r: SidecarPurpose)
    ensures
        r.hashes(domain@, seq![input@]),
{
    let mut inputs: Vec<&'static str> = Vec::new();
    inputs.push(input);
    SidecarPurpose { domain, inputs }
}

fn two_inputs(domain: &'static str, first: &'static str, second: &'static str) -> (r:
    SidecarPurpose)
    ensures
        r.hashes(domain@, seq![first@, second@]),
{
    let mut inputs: Vec<&'static str> = Vec::new();
    inputs.push(first);
    inputs.push(second);
    SidecarPurpose { domain, inputs }
}

fn auth_pcs_region_sidecar_purpose(role: &'static str, walk_domain: &'static str) -> (r:
    SidecarPurpose)
    ensures
        r.hashes("NOID/REGION-SIDECAR/AUTH-PCS-PRODUCTION/V1"@, seq![role@, walk_domain@]),
{
    two_inputs("NOID/REGION-SIDECAR/AUTH-PCS-PRODUCTION/V1", role, walk_domain)
}

/// Canonical role purpose for the wallet capsule-leaf walk.
pub fn auth_pcs_wallet_a_sidecar_purpose() -> (r: SidecarPurpose)
    ensures
        r.hashes(
            "NOID/REGION-SIDECAR/AUTH-PCS-PRODUCTION/V1"@,
            seq!["wallet-a"@, "source-binding-wallet-leaf-union"@],
        ),
{
    auth_pcs_region_sidecar_purpose("wallet-a", "source-binding-wallet-leaf-union")
}

/// Canonical role purpose for the exact-state and body-spine walk.
pub fn auth_pcs_meta_a_sidecar_purpose() -> (r: SidecarPurpose)
    ensures
        r.hashes(
            "NOID/REGION-SIDECAR/AUTH-PCS-PRODUCTION/V1"@,
            seq!["meta-a"@, "source-binding-block-meta-union"@],
        ),
{
    auth_pcs_region_sidecar_purpose("meta-a", "source-binding-block-meta-union")
}

/// Canonical role purpose for the wallet capsule-path walk.
pub fn auth_pcs_wallet_b_sidecar_purpose() -> (r: SidecarPurpose)
    ensures
        r.hashes(
            "NOID/REGION-SIDECAR/AUTH-PCS-PRODUCTION/V1"@,
            seq!["wallet-b"@, "source-binding-wallet-merkle-union"@],
        ),
{
    auth_pcs_region_sidecar_purpose("wallet-b", "source-binding-wallet-merkle-union")
}

/// Canonical role purpose for the exact-state and tx-root path walk.
pub fn auth_pcs_meta_b_sidecar_purpose() -> (r: SidecarPurpose)
    ensures
        r.hashes(
            "NOID/REGION-SIDECAR/AUTH-PCS-PRODUCTION/V1"@,
            seq!["meta-b"@, "source-binding-block-meta-merkle-union"@],
        ),
{
    auth_pcs_region_sidecar_purpose("meta-b", "source-binding-block-meta-merkle-union")
}

/// Canonical role purpose for the recording-free main channel walk.
pub fn auth_pcs_main_c_sidecar_purpose() -> (r: SidecarPurpose)
    ensures
        r.hashes(
            "NOID/REGION-SIDECAR/AUTH-PCS-PRODUCTION/V1"@,
            seq!["main-c"@, "source-binding-full-duplex-union"@],
        ),
{
    auth_pcs_region_sidecar_purpose("main-c", "source-binding-full-duplex-union")
}

/// Canonical role identifier for the link-local leaf walk.
pub fn link_r_pcs_leaf_sidecar_purpose() -> (r: SidecarPurpose)
    ensures
        r.hashes("NOID/REGION-SIDECAR/LINK-R-PCS-LEAF-A/V1"@, seq!["r-pcs-leaf-union-v0"@]),
{
    one_input("NOID/REGION-SIDECAR/LINK-R-PCS-LEAF-A/V1", "r-pcs-leaf-union-v0")
}

/// Canonical role identifier for the link-local path walk.
pub fn link_r_pcs_path_sidecar_purpose() -> (r: SidecarPurpose)
    ensures
        r.hashes("NOID/REGION-SIDECAR/LINK-R-PCS-PATH-B/V1"@, seq!["r-pcs-merkle-union-v0"@]),
{
    one_input("NOID/REGION-SIDECAR/LINK-R-PCS-PATH-B/V1", "r-pcs-merkle-union-v0")
}

/// Canonical role identifier for the recordings walk of a history step, from
/// the host's domains of the block child transcript and of the step proof.
pub fn link_recordings_purpose(
    block_child_domain: &'static str,
    step_proof_domain: &'static str,
) -> (r: SidecarPurpose)
    ensures
        r.hashes(
            "NOID/REGION-SIDECAR/HISTORY-STEP-RECORDINGS/V1"@,
            seq![block_child_domain@, step_proof_domain@],
        ),
{
    two_inputs(
        "NOID/REGION-SIDECAR/HISTORY-STEP-RECORDINGS/V1",
        block_child_domain,
        step_proof_domain,
    )
}

/// No two sidecar purposes hash the same inputs under the same domain: the
/// four domains differ pairwise, and so do the five roles and the five walk
/// domains that share one.
pub proof fn lemma_purposes_distinct()
    ensures
        "NOID/REGION-SIDECAR/AUTH-PCS-PRODUCTION/V1"@
            != "NOID/REGION-SIDECAR/LINK-R-PCS-LEAF-A/V1"@,
        "NOID/REGION-SIDECAR/AUTH-PCS-PRODUCTION/V1"@
            != "NOID/REGION-SIDECAR/LINK-R-PCS-PATH-B/V1"@,
        "NOID/REGION-SIDECAR/AUTH-PCS-PRODUCTION/V1"@
            != "NOID/REGION-SIDECAR/HISTORY-STEP-RECORDINGS/V1"@,
        "NOID/REGION-SIDECAR/LINK-R-PCS-LEAF-A/V1"@ != "NOID/REGION-SIDECAR/LINK-R-PCS-PATH-B/V1"@,
        "NOID/REGION-SIDECAR/LINK-R-PCS-LEAF-A/V1"@
            != "NOID/REGION-SIDECAR/HISTORY-STEP-RECORDINGS/V1"@,
        "NOID/REGION-SIDECAR/LINK-R-PCS-PATH-B/V1"@
            != "NOID/REGION-SIDECAR/HISTORY-STEP-RECORDINGS/V1"@,
        "wallet-a"@ != "meta-a"@,
        "wallet-a"@ != "wallet-b"@,
        "wallet-a"@ != "meta-b"@,
        "wallet-a"@ != "main-c"@,
        "meta-a"@ != "wallet-b"@,
        "meta-a"@ != "meta-b"@,
        "meta-a"@ != "main-c"@,
        "wallet-b"@ != "meta-b"@,
        "wallet-b"@ != "main-c"@,
        "meta-b"@ != "main-c"@,
        "source-binding-wallet-leaf-union"@
            != "source-binding-block-meta-union"@,
        "source-binding-wallet-leaf-union"@
            != "source-binding-wallet-merkle-union"@,
        "source-binding-wallet-leaf-union"@
            != "source-binding-block-meta-merkle-union"@,
        "source-binding-wallet-leaf-union"@
            != "source-binding-full-duplex-union"@,
        "source-binding-block-meta-union"@
            != "source-binding-wallet-merkle-union"@,
        "source-binding-block-meta-union"@
            != "source-binding-block-meta-merkle-union"@,
        "source-binding-block-meta-union"@
            != "source-binding-full-duplex-union"@,
        "source-binding-wallet-merkle-union"@
            != "source-binding-block-meta-merkle-union"@,
        "source-binding-wallet-merkle-union"@
            != "source-binding-full-duplex-union"@,
        "source-binding-block-meta-merkle-union"@
            != "source-binding-full-duplex-union"@,
{
    reveal_strlit("NOID/REGION-SIDECAR/AUTH-PCS-PRODUCTION/V1");
    reveal_strlit("NOID/REGION-SIDECAR/LINK-R-PCS-LEAF-A/V1");
    reveal_strlit("NOID/REGION-SIDECAR/LINK-R-PCS-PATH-B/V1");
    reveal_strlit("NOID/REGION-SIDECAR/HISTORY-STEP-RECORDINGS/V1");
    assert("NOID/REGION-SIDECAR/LINK-R-PCS-LEAF-A/V1"@[31]
        != "NOID/REGION-SIDECAR/LINK-R-PCS-PATH-B/V1"@[31]);
    assert("NOID/REGION-SIDECAR/AUTH-PCS-PRODUCTION/V1"@[20]
        != "NOID/REGION-SIDECAR/HISTORY-STEP-RECORDINGS/V1"@[20]);
    assert("NOID/REGION-SIDECAR/LINK-R-PCS-PATH-B/V1"@[20]
        != "NOID/REGION-SIDECAR/HISTORY-STEP-RECORDINGS/V1"@[20]);
    reveal_strlit("wallet-a");
    reveal_strlit("meta-a");
    reveal_strlit("wallet-b");
    reveal_strlit("meta-b");
    reveal_strlit("main-c");
    assert("wallet-a"@[7] != "wallet-b"@[7]);
    assert("meta-a"@[5] != "meta-b"@[5]);
    assert("meta-a"@[5] != "main-c"@[5]);
    assert("meta-b"@[5] != "main-c"@[5]);
    reveal_strlit("source-binding-wallet-leaf-union");
    reveal_strlit("source-binding-block-meta-union");
    reveal_strlit("source-binding-wallet-merkle-union");
    reveal_strlit("source-binding-block-meta-merkle-union");
    reveal_strlit("source-binding-full-duplex-union");
    assert("source-binding-wallet-leaf-union"@[15]
        != "source-binding-block-meta-union"@[15]);
    assert("source-binding-wallet-leaf-union"@[22]
        != "source-binding-wallet-merkle-union"@[22]);
    assert("source-binding-wallet-leaf-union"@[15]
        != "source-binding-block-meta-merkle-union"@[15]);
    assert("source-binding-wallet-leaf-union"@[15]
        != "source-binding-full-duplex-union"@[15]);
    assert("source-binding-block-meta-union"@[15]
        != "source-binding-wallet-merkle-union"@[15]);
    assert("source-binding-block-meta-union"@[26]
        != "source-binding-block-meta-merkle-union"@[26]);
    assert("source-binding-block-meta-union"@[15]
        != "source-binding-full-duplex-union"@[15]);
    assert("source-binding-wallet-merkle-union"@[15]
        != "source-binding-block-meta-merkle-union"@[15]);
    assert("source-binding-wallet-merkle-union"@[15]
        != "source-binding-full-duplex-union"@[15]);
    assert("source-binding-block-meta-merkle-union"@[15]
        != "source-binding-full-duplex-union"@[15]);
}

} // verus!
